//! An inverted index with versions, and the documents it was made of.
use crate::bloom::bits::zeros;
use crate::bytemap::ByteMap;
use crate::bytes::{append_bytes, copy_bytes};
use crate::fulltext::posting::{
    count_of, is_fresh, law_occurrence_is_fresh, law_positions_mark_no_deletion,
    lemma_occurrence_keeps_place, lemma_posting_index, one_position, posting_index,
    tombstone_marker, versions_in, with_commits, with_occurrence,
    with_tombstones, with_vacuums, DocumentEntry, Moment, PostingList, PostingView,
};
use crate::fulltext::tokenizer::{
    default_stop_words, words_of, Tokenizer, TokenizerConfig, TokenizerKind,
};
use crate::pager::{Page, PageId, PageType, PageView, Pager, PagerError};
use crate::table::{Corruption, TableError, TableResult};
use crate::txn::saturated;
use crate::types::{LogSequenceNumber, TableId, TransactionId};
use crate::wire::positions_record;
use vstd::bytes::*;
use vstd::prelude::*;
use vstd::string::*;
use vstd::utf8::encode_utf8;

verus! {

/// What a root page starts with.
pub const FULLTEXT_MAGIC: u32 = 0x4654_5854;

/// The version of the layout of root pages.
pub const FULLTEXT_VERSION: u32 = 1;

/// The length of what a root page starts with.
pub const FULLTEXT_HEADER: usize = 72;

/// The bits of the single-precision number one.
pub const BOOST_ONE: u32 = 0x3f80_0000;

/// The settings of an index.
#[derive(Clone, Debug)]
pub struct FullTextConfig {
    pub tokenizer: TokenizerConfig,
    /// Whether the positions of terms are kept.
    pub enable_positions: bool,
}

impl Default for FullTextConfig {
    fn default() -> (r: Self)
        ensures
            r.tokenizer.kind == TokenizerKind::Simple,
            r.tokenizer.min_word_length == 2,
            words_of(r.tokenizer.stop_words@) == default_stop_words(),
            r.enable_positions,
    {
        FullTextConfig { tokenizer: TokenizerConfig::default(), enable_positions: true }
    }
}

/// A field of a document.
#[derive(Clone, Copy, Debug)]
pub struct TextField<'a> {
    pub name: &'a str,
    pub text: &'a str,
    /// The weight of the field, as the bits of a single-precision number.
    pub boost: u32,
}

/// What is searched for.
#[derive(Clone, Copy, Debug)]
pub struct TextQuery<'a> {
    pub query: &'a str,
    pub default_field: Option<&'a str>,
    pub require_positions: bool,
}

/// What one posting adds to the score of a document.
#[derive(Debug)]
pub struct TermHit {
    pub doc_id: Vec<u8>,
    /// How often the term occurs in the document.
    pub term_freq: usize,
    /// How many postings the term has.
    pub doc_freq: usize,
    /// The weight of the last of the document's postings, as the bits of a single-precision
    /// number.
    pub boost: u32,
}

/// A hit as the contracts speak of it.
#[verifier::ext_equal]
pub struct HitView {
    pub doc_id: Seq<u8>,
    pub term_freq: int,
    pub doc_freq: int,
    pub boost: u32,
}

impl View for TermHit {
    type V = HitView;

    open spec fn view(&self) -> HitView {
        HitView {
            doc_id: self.doc_id@,
            term_freq: self.term_freq as int,
            doc_freq: self.doc_freq as int,
            boost: self.boost,
        }
    }
}

/// The hits as the contracts speak of them.
pub open spec fn hit_views(hits: Seq<TermHit>) -> Seq<HitView> {
    Seq::new(hits.len(), |i: int| hits[i]@)
}

/// The postings of each term.
pub type Lists = Map<Seq<u8>, Seq<PostingView>>;

/// How often the term occurs in the document, in the postings that count.
pub open spec fn term_freq(list: Seq<PostingView>, doc: Seq<u8>, at: Option<Moment>) -> int
    decreases list.len(),
{
    if list.len() == 0 {
        0
    } else {
        term_freq(list.drop_last(), doc, at) + (if list.last().doc_id == doc && list.last().counts(
            at,
        ) {
            list.last().positions.len() as int
        } else {
            0int
        })
    }
}

/// The weight of the last posting of the document that counts.
pub open spec fn last_boost(list: Seq<PostingView>, doc: Seq<u8>, at: Option<Moment>) -> u32
    decreases list.len(),
{
    if list.len() == 0 {
        BOOST_ONE
    } else if list.last().doc_id == doc && list.last().counts(at) {
        list.last().boost
    } else {
        last_boost(list.drop_last(), doc, at)
    }
}

/// What a posting of the list adds to the score of its document.
pub open spec fn hit_of(list: Seq<PostingView>, doc: Seq<u8>, at: Option<Moment>) -> HitView {
    HitView {
        doc_id: doc,
        term_freq: saturated(term_freq(list, doc, at)),
        doc_freq: count_of(list, at),
        boost: last_boost(list, doc, at),
    }
}

/// The hits of the first `n` postings of a list.
pub open spec fn list_hits(list: Seq<PostingView>, at: Option<Moment>, n: int) -> Seq<HitView>
    decreases n,
{
    if n <= 0 {
        Seq::empty()
    } else {
        let before = list_hits(list, at, n - 1);
        if list[n - 1].counts(at) {
            before.push(hit_of(list, list[n - 1].doc_id, at))
        } else {
            before
        }
    }
}

/// The postings of a term, none where it does not occur.
pub open spec fn list_of(m: Lists, term: Seq<u8>) -> Seq<PostingView> {
    if m.contains_key(term) {
        m[term]
    } else {
        Seq::empty()
    }
}

/// The hits of several terms.
pub open spec fn query_hits(m: Lists, terms: Seq<Seq<char>>, at: Option<Moment>) -> Seq<HitView>
    decreases terms.len(),
{
    if terms.len() == 0 {
        Seq::empty()
    } else {
        let list = list_of(m, encode_utf8(terms.last()));
        query_hits(m, terms.drop_last(), at) + list_hits(list, at, list.len() as int)
    }
}

/// The postings after a term was found in a field.
pub open spec fn with_term(
    m: Lists,
    term: Seq<u8>,
    doc: Seq<u8>,
    field: Seq<char>,
    position: usize,
    boost: u32,
    tx: TransactionId,
    keep: bool,
) -> Lists {
    m.insert(term, with_occurrence(list_of(m, term), doc, field, position, boost, tx, keep))
}

/// The postings after the terms of a field were added.
pub open spec fn with_field(
    m: Lists,
    terms: Seq<Seq<char>>,
    doc: Seq<u8>,
    field: Seq<char>,
    boost: u32,
    tx: TransactionId,
    keep: bool,
) -> Lists
    decreases terms.len(),
{
    if terms.len() == 0 {
        m
    } else {
        with_term(
            with_field(m, terms.drop_last(), doc, field, boost, tx, keep),
            encode_utf8(terms.last()),
            doc,
            field,
            (terms.len() - 1) as usize,
            boost,
            tx,
            keep,
        )
    }
}

/// The postings after the first `n` fields of a document were added.
pub open spec fn with_fields(
    m: Lists,
    tokenizer: Tokenizer,
    fields: Seq<TextField>,
    n: int,
    doc: Seq<u8>,
    tx: TransactionId,
    keep: bool,
) -> Lists
    decreases n,
{
    if n <= 0 {
        m
    } else {
        let f = fields[n - 1];
        with_field(
            with_fields(m, tokenizer, fields, n - 1, doc, tx, keep),
            tokenizer.terms(f.text@),
            doc,
            f.name@,
            f.boost,
            tx,
            keep,
        )
    }
}

/// The lists with all pending versions committed.
pub open spec fn with_all_commits(m: Lists, lsn: LogSequenceNumber) -> Lists {
    m.map_values(|l: Seq<PostingView>| with_commits(l, lsn))
}

/// The lists with all postings of a document marked as deleted.
pub open spec fn without_text(m: Lists, doc: Seq<u8>, tx: TransactionId) -> Lists {
    m.map_values(|l: Seq<PostingView>| with_tombstones(l, doc, tx))
}

/// A field of a document has a posting under the term whose newest version is a pending one of
/// transaction `tx` that marks no deletion.
pub open spec fn is_noted(
    m: Lists,
    term: Seq<u8>,
    doc: Seq<u8>,
    field: Seq<char>,
    tx: TransactionId,
) -> bool {
    m.contains_key(term) && exists|i: int| #[trigger] is_note(m[term], i, doc, field, tx)
}

/// The posting at that place is one of the field of the document, and its newest version is a
/// pending one of transaction `tx` that marks no deletion.
pub open spec fn is_note(
    list: Seq<PostingView>,
    i: int,
    doc: Seq<u8>,
    field: Seq<char>,
    tx: TransactionId,
) -> bool {
    0 <= i < list.len() && list[i].doc_id == doc && list[i].field == field && is_fresh(list[i], tx)
}

proof fn lemma_term_is_noted(
    m: Lists,
    term: Seq<u8>,
    doc: Seq<u8>,
    field: Seq<char>,
    position: usize,
    boost: u32,
    tx: TransactionId,
    keep: bool,
)
    ensures
        is_noted(with_term(m, term, doc, field, position, boost, tx, keep), term, doc, field, tx),
        forall|t: Seq<u8>, f: Seq<char>| #[trigger]
            is_noted(m, t, doc, f, tx) ==> is_noted(
                with_term(m, term, doc, field, position, boost, tx, keep),
                t,
                doc,
                f,
                tx,
            ),
{
    let m2 = with_term(m, term, doc, field, position, boost, tx, keep);
    let list = list_of(m, term);
    let p = posting_index(list, doc, field);
    law_occurrence_is_fresh(list, doc, field, position, boost, tx, keep);
    lemma_posting_index(list, doc, field);
    assert(is_note(m2[term], p, doc, field, tx));
    assert forall|t: Seq<u8>, f: Seq<char>| #[trigger] is_noted(m, t, doc, f, tx) implies is_noted(
        m2,
        t,
        doc,
        f,
        tx,
    ) by {
        let i = choose|i: int| #[trigger] is_note(m[t], i, doc, f, tx);
        assert(is_note(m[t], i, doc, f, tx));
        assert(is_note(m2[t], i, doc, f, tx));
    }
}

proof fn lemma_field_is_noted(
    m: Lists,
    terms: Seq<Seq<char>>,
    doc: Seq<u8>,
    field: Seq<char>,
    boost: u32,
    tx: TransactionId,
    keep: bool,
)
    ensures
        forall|i: int|
            0 <= i < terms.len() ==> is_noted(
                with_field(m, terms, doc, field, boost, tx, keep),
                encode_utf8(#[trigger] terms[i]),
                doc,
                field,
                tx,
            ),
        forall|t: Seq<u8>, f: Seq<char>| #[trigger]
            is_noted(m, t, doc, f, tx) ==> is_noted(
                with_field(m, terms, doc, field, boost, tx, keep),
                t,
                doc,
                f,
                tx,
            ),
    decreases terms.len(),
{
    if terms.len() > 0 {
        let before = terms.drop_last();
        lemma_field_is_noted(m, before, doc, field, boost, tx, keep);
        let mid = with_field(m, before, doc, field, boost, tx, keep);
        lemma_term_is_noted(
            mid,
            encode_utf8(terms.last()),
            doc,
            field,
            (terms.len() - 1) as usize,
            boost,
            tx,
            keep,
        );
        assert forall|i: int| 0 <= i < terms.len() implies is_noted(
            with_field(m, terms, doc, field, boost, tx, keep),
            encode_utf8(#[trigger] terms[i]),
            doc,
            field,
            tx,
        ) by {
            if i < before.len() {
                assert(before[i] == terms[i]);
                assert(is_noted(mid, encode_utf8(before[i]), doc, field, tx));
            }
        }
    }
}

/// Every term of every field of a document that was added is noted, whatever stood in the index.
pub proof fn law_added_document_is_noted(
    m: Lists,
    tokenizer: Tokenizer,
    fields: Seq<TextField>,
    n: int,
    doc: Seq<u8>,
    tx: TransactionId,
    keep: bool,
    f: int,
    i: int,
)
    requires
        0 <= f < n <= fields.len(),
        0 <= i < tokenizer.terms(fields[f].text@).len(),
    ensures
        is_noted(
            with_fields(m, tokenizer, fields, n, doc, tx, keep),
            encode_utf8(tokenizer.terms(fields[f].text@)[i]),
            doc,
            fields[f].name@,
            tx,
        ),
    decreases n,
{
    let last = fields[n - 1];
    let before = with_fields(m, tokenizer, fields, n - 1, doc, tx, keep);
    lemma_field_is_noted(
        before,
        tokenizer.terms(last.text@),
        doc,
        last.name@,
        last.boost,
        tx,
        keep,
    );
    if f < n - 1 {
        law_added_document_is_noted(m, tokenizer, fields, n - 1, doc, tx, keep, f, i);
    }
}

/// A term occurs in a document as often as the postings of the document that count have positions,
/// all of them together.
pub proof fn law_term_frequency(list: Seq<PostingView>, doc: Seq<u8>, at: Option<Moment>)
    ensures
        term_freq(list, doc, at) == list.filter(
            |e: PostingView| e.doc_id == doc && e.counts(at),
        ).map_values(|e: PostingView| e.positions).flatten().len(),
    decreases list.len(),
{
    reveal(Seq::filter);
    let own = |e: PostingView| e.doc_id == doc && e.counts(at);
    let positions = |e: PostingView| e.positions;
    if list.len() > 0 {
        let rest = list.drop_last();
        law_term_frequency(rest, doc, at);
        if own(list.last()) {
            assert(list.filter(own).map_values(positions) =~= rest.filter(own).map_values(
                positions,
            ).push(list.last().positions));
            rest.filter(own).map_values(positions).lemma_flatten_push(list.last().positions);
        }
    } else {
        assert(list.filter(own).map_values(positions) =~= Seq::empty());
    }
}

/// The weight of a document under a term is that of its last posting there that counts, and one
/// where none does.
pub proof fn law_last_weight(list: Seq<PostingView>, doc: Seq<u8>, at: Option<Moment>, i: int)
    requires
        -1 <= i < list.len(),
        i >= 0 ==> list[i].doc_id == doc && list[i].counts(at),
        forall|j: int|
            i < j < list.len() ==> (#[trigger] list[j]).doc_id != doc || !list[j].counts(at),
    ensures
        last_boost(list, doc, at) == (if i >= 0 {
            list[i].boost
        } else {
            BOOST_ONE
        }),
    decreases list.len(),
{
    if list.len() > i + 1 {
        assert(list[list.len() - 1].doc_id != doc || !list[list.len() - 1].counts(at));
        let rest = list.drop_last();
        assert forall|j: int| i < j < rest.len() implies (#[trigger] rest[j]).doc_id != doc
            || !rest[j].counts(at) by {
            assert(rest[j] == list[j]);
        }
        law_last_weight(rest, doc, at, i);
    }
}

/// Under one term there is a hit for each posting that counts, in the order of the postings, and
/// it carries the identifier of its document, how often the term occurs there, the number of the
/// postings that count and the weight.
pub proof fn law_hits_of_a_term(list: Seq<PostingView>, at: Option<Moment>)
    ensures
        list_hits(list, at, list.len() as int) == list.filter(
            |e: PostingView| e.counts(at),
        ).map_values(
            |e: PostingView|
                HitView {
                    doc_id: e.doc_id,
                    term_freq: saturated(term_freq(list, e.doc_id, at)),
                    doc_freq: list.filter(|e: PostingView| e.counts(at)).len() as int,
                    boost: last_boost(list, e.doc_id, at),
                },
        ),
{
    lemma_count(list, at);
    lemma_hits_below(list, at, list.len() as int);
    assert(list.take(list.len() as int) =~= list);
}

proof fn lemma_count(list: Seq<PostingView>, at: Option<Moment>)
    ensures
        count_of(list, at) == list.filter(|e: PostingView| e.counts(at)).len(),
    decreases list.len(),
{
    reveal(Seq::filter);
    if list.len() > 0 {
        lemma_count(list.drop_last(), at);
    }
}

proof fn lemma_hits_below(list: Seq<PostingView>, at: Option<Moment>, n: int)
    requires
        0 <= n <= list.len(),
        count_of(list, at) == list.filter(|e: PostingView| e.counts(at)).len(),
    ensures
        list_hits(list, at, n) == list.take(n).filter(
            |e: PostingView| e.counts(at),
        ).map_values(
            |e: PostingView|
                HitView {
                    doc_id: e.doc_id,
                    term_freq: saturated(term_freq(list, e.doc_id, at)),
                    doc_freq: list.filter(|e: PostingView| e.counts(at)).len() as int,
                    boost: last_boost(list, e.doc_id, at),
                },
        ),
    decreases n,
{
    reveal(Seq::filter);
    let counts = |e: PostingView| e.counts(at);
    let hit = |e: PostingView|
        HitView {
            doc_id: e.doc_id,
            term_freq: saturated(term_freq(list, e.doc_id, at)),
            doc_freq: list.filter(|e: PostingView| e.counts(at)).len() as int,
            boost: last_boost(list, e.doc_id, at),
        };
    if n > 0 {
        lemma_hits_below(list, at, n - 1);
        assert(list.take(n).drop_last() =~= list.take(n - 1));
        assert(list.take(n).last() == list[n - 1]);
        if list[n - 1].counts(at) {
            assert(list.take(n - 1).filter(counts).push(list[n - 1]).map_values(hit)
                =~= list.take(n - 1).filter(counts).map_values(hit).push(hit(list[n - 1])));
        }
    } else {
        assert(list.take(n).filter(counts).map_values(hit) =~= Seq::empty());
    }
}

/// The hits of several terms are those of each of them, in the order of the terms.
pub proof fn law_hits_of_terms_in_a_row(
    m: Lists,
    a: Seq<Seq<char>>,
    term: Seq<char>,
    at: Option<Moment>,
)
    ensures
        query_hits(m, Seq::empty(), at) == Seq::<HitView>::empty(),
        query_hits(m, a.push(term), at) == query_hits(m, a, at) + query_hits(m, seq![term], at),
        query_hits(m, seq![term], at) == list_hits(
            list_of(m, encode_utf8(term)),
            at,
            list_of(m, encode_utf8(term)).len() as int,
        ),
{
    reveal_with_fuel(query_hits, 2);
    assert(a.push(term).drop_last() =~= a);
    assert(seq![term].drop_last() =~= Seq::empty());
    assert(query_hits(m, seq![term], at) =~= list_hits(
        list_of(m, encode_utf8(term)),
        at,
        list_of(m, encode_utf8(term)).len() as int,
    ));
}

/// The posting of a field under a term gets the positions at which the term stands among the
/// terms of the field, all of them and in order, where positions are kept. They follow those that
/// it had, or start afresh where its newest version marks a deletion. The postings of other fields
/// and documents stay as they are, and so does the list of a term that the field does not hold.
pub proof fn law_positions_of_a_term(
    m: Lists,
    terms: Seq<Seq<char>>,
    doc: Seq<u8>,
    field: Seq<char>,
    boost: u32,
    tx: TransactionId,
    keep: bool,
    key: Seq<u8>,
)
    requires
        terms.len() <= usize::MAX,
    ensures
        ({
            let before = list_of(m, key);
            let after = list_of(with_field(m, terms, doc, field, boost, tx, keep), key);
            let i = posting_index(before, doc, field);
            let found = Seq::new(terms.len(), |p: int| p as usize).filter(
                |p: usize| encode_utf8(terms[p as int]) == key,
            );
            let had = if i < before.len() && before[i].versions.len() > 0
                && before[i].versions[0].value == seq![0xFFu8] || i >= before.len() {
                Seq::<usize>::empty()
            } else {
                before[i].positions
            };
            &&& found.len() == 0 ==> after == before
            &&& found.len() > 0 ==> {
                &&& 0 <= i < after.len()
                &&& after.len() == (if i < before.len() {
                    before.len()
                } else {
                    before.len() + 1
                })
                &&& after[i].doc_id == doc
                &&& after[i].field == field
                &&& after[i].boost == boost
                &&& after[i].positions == had + (if keep {
                    found
                } else {
                    Seq::empty()
                })
                &&& forall|j: int|
                    0 <= j < before.len() && j != i ==> #[trigger] after[j] == before[j]
            }
        }),
{
    lemma_positions_below(m, terms, terms.len() as int, doc, field, boost, tx, keep, key);
    assert(terms.take(terms.len() as int) =~= terms);
}

proof fn lemma_positions_below(
    m: Lists,
    terms: Seq<Seq<char>>,
    n: int,
    doc: Seq<u8>,
    field: Seq<char>,
    boost: u32,
    tx: TransactionId,
    keep: bool,
    key: Seq<u8>,
)
    requires
        0 <= n <= terms.len() <= usize::MAX,
    ensures
        ({
            let before = list_of(m, key);
            let after = list_of(with_field(m, terms.take(n), doc, field, boost, tx, keep), key);
            let i = posting_index(before, doc, field);
            let found = Seq::new(n as nat, |p: int| p as usize).filter(
                |p: usize| encode_utf8(terms[p as int]) == key,
            );
            let had = if i < before.len() && before[i].versions.len() > 0
                && before[i].versions[0].value == seq![0xFFu8] || i >= before.len() {
                Seq::<usize>::empty()
            } else {
                before[i].positions
            };
            &&& found.len() == 0 ==> after == before
            &&& found.len() > 0 ==> {
                &&& posting_index(after, doc, field) == i
                &&& 0 <= i < after.len()
                &&& after.len() == (if i < before.len() {
                    before.len()
                } else {
                    before.len() + 1
                })
                &&& after[i].doc_id == doc
                &&& after[i].field == field
                &&& after[i].boost == boost
                &&& after[i].positions == had + (if keep {
                    found
                } else {
                    Seq::empty()
                })
                &&& after[i].versions.len() > 0
                &&& after[i].versions[0].value != tombstone_marker()
                &&& forall|j: int|
                    0 <= j < before.len() && j != i ==> #[trigger] after[j] == before[j]
            }
        }),
    decreases n,
{
    reveal(Seq::filter);
    let here = |p: usize| encode_utf8(terms[p as int]) == key;
    let numbers = Seq::new(n as nat, |p: int| p as usize);
    let before = list_of(m, key);
    let i = posting_index(before, doc, field);
    lemma_posting_index(before, doc, field);
    if n > 0 {
        lemma_positions_below(m, terms, n - 1, doc, field, boost, tx, keep, key);
        let fewer = Seq::new((n - 1) as nat, |p: int| p as usize);
        assert(numbers.drop_last() =~= fewer);
        assert(numbers.last() == (n - 1) as usize);
        assert(terms.take(n).drop_last() =~= terms.take(n - 1));
        assert(terms.take(n).last() == terms[n - 1]);
        let middle = list_of(with_field(m, terms.take(n - 1), doc, field, boost, tx, keep), key);
        let after = list_of(with_field(m, terms.take(n), doc, field, boost, tx, keep), key);
        if encode_utf8(terms[n - 1]) == key {
            assert(here((n - 1) as usize));
            assert(after == with_occurrence(
                middle,
                doc,
                field,
                (n - 1) as usize,
                boost,
                tx,
                keep,
            ));
            lemma_occurrence_keeps_place(middle, doc, field, (n - 1) as usize, boost, tx, keep);
            assert(posting_index(middle, doc, field) == i);
            law_positions_mark_no_deletion(after[i].positions, boost);
            let old_found = fewer.filter(here);
            let one = one_position(keep, (n - 1) as usize);
            assert(after[i].versions[0].value == positions_record(after[i].positions, boost));
            if old_found.len() == 0 {
                assert(middle == before);
                assert(old_found =~= Seq::empty());
                assert(numbers.filter(here) =~= seq![(n - 1) as usize]);
                if i >= before.len() {
                    assert(after[i].positions =~= Seq::<usize>::empty() + one);
                }
            } else {
                assert(after[i].positions =~= middle[i].positions + one);
                assert(numbers.filter(here) =~= old_found + seq![(n - 1) as usize]);
            }
        } else {
            assert(!here((n - 1) as usize));
            assert(after == middle);
        }
    } else {
        assert(terms.take(n) =~= Seq::empty());
    }
}

/// The number of versions of all postings of the first `n` terms.
pub open spec fn all_versions(index: ByteMap<PostingList>, n: int) -> int
    decreases n,
{
    if n <= 0 {
        0
    } else {
        all_versions(index, n - 1) + versions_in(index.entries@[n - 1].1@)
    }
}

/// The head of a root page, filled up with zeros.
pub open spec fn root_data(num_documents: u64, num_terms: u64, root: u64, capacity: int) -> Seq<u8> {
    spec_u32_to_le_bytes(FULLTEXT_MAGIC) + spec_u32_to_le_bytes(FULLTEXT_VERSION)
        + spec_u64_to_le_bytes(num_documents) + spec_u64_to_le_bytes(num_terms)
        + spec_u64_to_le_bytes(root) + Seq::new((capacity - 32) as nat, |i: int| 0u8)
}

/// An inverted index.
pub struct PagedFullTextIndex {
    pub table_id: TableId,
    pub name: String,
    pub root_page_id: PageId,
    pub tokenizer: Tokenizer,
    pub enable_positions: bool,
    /// The postings of each term, under the bytes of the term.
    pub inverted_index: ByteMap<PostingList>,
    pub document_store: ByteMap<DocumentEntry>,
    pub num_documents: u64,
    pub num_terms: u64,
}

impl PagedFullTextIndex {
    /// Terms and documents ascend.
    pub open spec fn wf(&self) -> bool {
        &&& self.inverted_index.wf()
        &&& self.document_store.wf()
    }

    /// The postings of each term.
    pub open spec fn lists(&self) -> Lists {
        self.inverted_index@.map_values(|l: PostingList| l@)
    }

    /// The indexes have the same name and settings.
    pub open spec fn same_identity(&self, other: &Self) -> bool {
        &&& self.table_id == other.table_id
        &&& self.name == other.name
        &&& self.root_page_id == other.root_page_id
        &&& self.tokenizer == other.tokenizer
        &&& self.enable_positions == other.enable_positions
    }

    /// An empty index with a new root page.
    pub fn new(table_id: TableId, name: String, pager: &mut Pager, config: FullTextConfig) -> (r:
        TableResult<Self>)
        requires
            old(pager).wf(),
        ensures
            r is Ok,
            final(pager).wf(),
            final(pager).same_meta(old(pager)),
            !old(pager).pages().contains_key(r->Ok_0.root_page_id.0),
            final(pager).pages() == old(pager).pages().insert(
                r->Ok_0.root_page_id.0,
                PageView {
                    page_type: PageType::InvertedIndex,
                    data: root_data(
                        0,
                        0,
                        r->Ok_0.root_page_id.0,
                        old(pager).capacity() as int,
                    ),
                },
            ),
            r->Ok_0.wf(),
            r->Ok_0.lists() == Map::<Seq<u8>, Seq<PostingView>>::empty(),
            r->Ok_0.document_store@.dom() == Set::<Seq<u8>>::empty(),
            r->Ok_0.table_id == table_id,
            r->Ok_0.name == name,
            r->Ok_0.tokenizer.config == config.tokenizer,
            r->Ok_0.enable_positions == config.enable_positions,
            r->Ok_0.num_documents == 0,
            r->Ok_0.num_terms == 0,
    {
        let root_page_id = pager.allocate_page(PageType::InvertedIndex);
        let capacity: usize = pager.page_size().data_size();
        let mut page = Page::new(root_page_id, PageType::InvertedIndex);
        append_bytes(&mut page.data, u32_to_le_bytes(FULLTEXT_MAGIC).as_slice());
        append_bytes(&mut page.data, u32_to_le_bytes(FULLTEXT_VERSION).as_slice());
        append_bytes(&mut page.data, u64_to_le_bytes(0).as_slice());
        append_bytes(&mut page.data, u64_to_le_bytes(0).as_slice());
        append_bytes(&mut page.data, u64_to_le_bytes(root_page_id.0).as_slice());
        append_bytes(&mut page.data, zeros(capacity - 32).as_slice());
        proof {
            lemma_auto_spec_u32_to_from_le_bytes();
            lemma_auto_spec_u64_to_from_le_bytes();
            assert(page.data@ =~= root_data(0, 0, root_page_id.0, capacity as int));
        }
        match pager.write_page(page) {
            Ok(()) => {},
            Err(e) => return Err(TableError::Pager(e)),
        }
        let r = PagedFullTextIndex {
            table_id,
            name,
            root_page_id,
            tokenizer: Tokenizer::new(config.tokenizer),
            enable_positions: config.enable_positions,
            inverted_index: ByteMap::new(),
            document_store: ByteMap::new(),
            num_documents: 0,
            num_terms: 0,
        };
        proof {
            assert(r.lists() =~= Map::<Seq<u8>, Seq<PostingView>>::empty());
            assert(r.document_store@.dom() =~= Set::<Seq<u8>>::empty());
            assert(pager.pages() =~= old(pager).pages().insert(
                root_page_id.0,
                PageView {
                    page_type: PageType::InvertedIndex,
                    data: root_data(0, 0, root_page_id.0, old(pager).capacity() as int),
                },
            ));
        }
        Ok(r)
    }

    /// The index whose root page is given, with the default settings. Its postings start empty;
    /// the numbers of documents and terms are those of the root page.
    pub fn open(table_id: TableId, name: String, pager: &Pager, root_page_id: PageId) -> (r:
        TableResult<Self>)
        requires
            pager.wf(),
        ensures
            ({
                let known = pager.pages().contains_key(root_page_id.0);
                let data = pager.pages()[root_page_id.0].data;
                let magic = spec_u32_from_le_bytes(data.subrange(0, 4));
                match r {
                    Ok(x) => {
                        &&& known && data.len() >= FULLTEXT_HEADER && magic == FULLTEXT_MAGIC
                        &&& x.wf()
                        &&& x.lists() == Map::<Seq<u8>, Seq<PostingView>>::empty()
                        &&& x.document_store@.dom() == Set::<Seq<u8>>::empty()
                        &&& x.table_id == table_id
                        &&& x.name == name
                        &&& x.root_page_id == root_page_id
                        &&& x.tokenizer.config.kind == TokenizerKind::Simple
                        &&& x.tokenizer.config.min_word_length == 2
                        &&& words_of(x.tokenizer.config.stop_words@) == default_stop_words()
                        &&& x.enable_positions
                        &&& x.num_documents == spec_u64_from_le_bytes(data.subrange(8, 16))
                        &&& x.num_terms == spec_u64_from_le_bytes(data.subrange(16, 24))
                    },
                    Err(e) => if !known {
                        e == TableError::Pager(PagerError::PageNotFound(root_page_id))
                    } else if data.len() < FULLTEXT_HEADER {
                        e == TableError::Corruption(Corruption::ShortFullTextPage(root_page_id))
                    } else {
                        magic != FULLTEXT_MAGIC && e == TableError::Corruption(
                            Corruption::InvalidFullTextMagic(magic),
                        )
                    },
                }
            }),
    {
        let page = match pager.read_page(root_page_id) {
            Ok(p) => p,
            Err(e) => return Err(TableError::Pager(e)),
        };
        let data = page.data.as_slice();
        if data.len() < FULLTEXT_HEADER {
            return Err(TableError::Corruption(Corruption::ShortFullTextPage(root_page_id)));
        }
        let magic: u32 = u32_from_le_bytes(vstd::slice::slice_subrange(data, 0, 4));
        if magic != FULLTEXT_MAGIC {
            return Err(TableError::Corruption(Corruption::InvalidFullTextMagic(magic)));
        }
        let num_documents: u64 = u64_from_le_bytes(vstd::slice::slice_subrange(data, 8, 16));
        let num_terms: u64 = u64_from_le_bytes(vstd::slice::slice_subrange(data, 16, 24));
        let r = PagedFullTextIndex {
            table_id,
            name,
            root_page_id,
            tokenizer: Tokenizer::default(),
            enable_positions: true,
            inverted_index: ByteMap::new(),
            document_store: ByteMap::new(),
            num_documents,
            num_terms,
        };
        proof {
            assert(r.lists() =~= Map::<Seq<u8>, Seq<PostingView>>::empty());
            assert(r.document_store@.dom() =~= Set::<Seq<u8>>::empty());
        }
        Ok(r)
    }

    /// The root page.
    pub fn root_page_id(&self) -> (r: PageId)
        ensures
            r == self.root_page_id,
    {
        self.root_page_id
    }

    fn add_term(
        &mut self,
        term: &str,
        doc_id: &[u8],
        field: String,
        position: usize,
        boost: u32,
        tx_id: TransactionId,
    )
        requires
            old(self).wf(),
        ensures
            final(self).wf(),
            final(self).same_identity(old(self)),
            final(self).document_store == old(self).document_store,
            final(self).num_documents == old(self).num_documents,
            final(self).num_terms == old(self).num_terms,
            final(self).lists() == with_term(
                old(self).lists(),
                encode_utf8(term@),
                doc_id@,
                field@,
                position,
                boost,
                tx_id,
                old(self).enable_positions,
            ),
            is_noted(final(self).lists(), encode_utf8(term@), doc_id@, field@, tx_id),
    {
        let key = copy_bytes(term.as_bytes());
        let ghost k = key@;
        let ghost f = field@;
        let mut list = match self.inverted_index.remove(key.as_slice()) {
            Some(l) => l,
            None => PostingList::new(),
        };
        assert(list@ == list_of(old(self).lists(), k));
        list.add_occurrence(doc_id, field, position, boost, tx_id, self.enable_positions);
        let _ = self.inverted_index.insert(key, list);
        proof {
            assert(self.lists() =~= with_term(
                old(self).lists(),
                k,
                doc_id@,
                f,
                position,
                boost,
                tx_id,
                old(self).enable_positions,
            ));
            lemma_term_is_noted(
                old(self).lists(),
                k,
                doc_id@,
                f,
                position,
                boost,
                tx_id,
                old(self).enable_positions,
            );
        }
    }

    /// Adds a document: an occurrence for each term of each field. A document that is known
    /// already gets further versions, and its text is replaced.
    pub fn index_document(
        &mut self,
        doc_id: &[u8],
        fields: &[TextField<'_>],
        tx_id: TransactionId,
        _commit_lsn: LogSequenceNumber,
    ) -> (r: TableResult<()>)
        requires
            old(self).wf(),
            old(self).num_documents < u64::MAX,
        ensures
            r is Ok,
            final(self).wf(),
            final(self).same_identity(old(self)),
            final(self).lists() == with_fields(
                old(self).lists(),
                old(self).tokenizer,
                fields@,
                fields@.len() as int,
                doc_id@,
                tx_id,
                old(self).enable_positions,
            ),
            forall|f: int, i: int|
                0 <= f < fields@.len() && 0 <= i < old(self).tokenizer.terms(fields@[f].text@).len()
                    ==> is_noted(
                    final(self).lists(),
                    encode_utf8(#[trigger] old(self).tokenizer.terms(fields@[f].text@)[i]),
                    doc_id@,
                    fields@[f].name@,
                    tx_id,
                ),
            final(self).document_store@.dom() == old(self).document_store@.dom().insert(doc_id@),
            forall|d: Seq<u8>|
                d != doc_id@ && #[trigger] old(self).document_store@.contains_key(d)
                    ==> final(self).document_store@[d] == old(self).document_store@[d],
            final(self).document_store@[doc_id@].doc_id@ == doc_id@,
            final(self).document_store@[doc_id@].fields@.len() == fields@.len(),
            forall|i: int|
                0 <= i < fields@.len() ==> (
                #[trigger] final(self).document_store@[doc_id@].fields@[i]).0@ == fields@[i].name@
                    && final(self).document_store@[doc_id@].fields@[i].1@ == fields@[i].text@,
            final(self).num_documents == old(self).num_documents + (if old(self).document_store@.contains_key(doc_id@) {
                0int
            } else {
                1int
            }),
            final(self).num_terms == final(self).lists().dom().len() as u64,
    {
        let known: bool = self.document_store.contains_key(doc_id);
        let ghost m = self.lists();
        let ghost tok = self.tokenizer;
        let ghost keep = self.enable_positions;
        let mut doc_fields: Vec<(String, String)> = Vec::new();
        let mut i: usize = 0;
        while i < fields.len()
            invariant
                i <= fields@.len(),
                self.wf(),
                self.same_identity(old(self)),
                tok == self.tokenizer,
                keep == self.enable_positions,
                self.document_store == old(self).document_store,
                self.num_documents == old(self).num_documents,
                self.lists() == with_fields(m, tok, fields@, i as int, doc_id@, tx_id, keep),
                doc_fields@.len() == i,
                forall|k: int|
                    0 <= k < i ==> (#[trigger] doc_fields@[k]).0@ == fields@[k].name@
                        && doc_fields@[k].1@ == fields@[k].text@,
            decreases fields@.len() - i,
        {
            let field = fields[i];
            let terms = self.tokenizer.tokenize(field.text);
            let ghost ts = tok.terms(field.text@);
            let ghost before = self.lists();
            let mut j: usize = 0;
            assert(ts.take(0) =~= Seq::empty());
            while j < terms.len()
                invariant
                    j <= terms@.len() == ts.len(),
                    ts == tok.terms(field.text@),
                    forall|k: int|
                        0 <= k < ts.len() ==> (#[trigger] terms@[k]).0@ == ts[k] && terms@[k].1
                            == k,
                    self.wf(),
                    self.same_identity(old(self)),
                    tok == self.tokenizer,
                    keep == self.enable_positions,
                    self.document_store == old(self).document_store,
                    self.num_documents == old(self).num_documents,
                    self.lists() == with_field(
                        before,
                        ts.take(j as int),
                        doc_id@,
                        field.name@,
                        field.boost,
                        tx_id,
                        keep,
                    ),
                decreases terms@.len() - j,
            {
                proof {
                    assert(ts.take(j + 1).drop_last() =~= ts.take(j as int));
                    assert(ts.take(j + 1).last() == ts[j as int]);
                }
                self.add_term(
                    terms[j].0.as_str(),
                    doc_id,
                    field.name.to_owned(),
                    terms[j].1,
                    field.boost,
                    tx_id,
                );
                j += 1;
            }
            assert(ts.take(j as int) =~= ts);
            doc_fields.push((field.name.to_owned(), field.text.to_owned()));
            i += 1;
        }
        let entry = DocumentEntry { doc_id: copy_bytes(doc_id), fields: doc_fields };
        let _ = self.document_store.insert(copy_bytes(doc_id), entry);
        if !known {
            self.num_documents = self.num_documents + 1;
        }
        self.num_terms = self.inverted_index.len() as u64;
        proof {
            assert(self.lists().dom() =~= self.inverted_index@.dom());
            assert(self.document_store@.dom() =~= old(self).document_store@.dom().insert(doc_id@));
            assert forall|f: int, i: int|
                0 <= f < fields@.len() && 0 <= i < tok.terms(
                    fields@[f].text@,
                ).len() implies is_noted(
                self.lists(),
                encode_utf8(#[trigger] tok.terms(fields@[f].text@)[i]),
                doc_id@,
                fields@[f].name@,
                tx_id,
            ) by {
                law_added_document_is_noted(
                    m,
                    tok,
                    fields@,
                    fields@.len() as int,
                    doc_id@,
                    tx_id,
                    keep,
                    f,
                    i,
                );
            }
        }
        Ok(())
    }

    /// Marks all postings of a known document as deleted. Its text is kept.
    pub fn delete_document(
        &mut self,
        doc_id: &[u8],
        tx_id: TransactionId,
        _commit_lsn: LogSequenceNumber,
    ) -> (r: TableResult<()>)
        requires
            old(self).wf(),
        ensures
            r is Ok,
            final(self).wf(),
            final(self).same_identity(old(self)),
            final(self).document_store == old(self).document_store,
            final(self).num_documents == old(self).num_documents,
            final(self).num_terms == old(self).num_terms,
            final(self).lists() == (if old(self).document_store@.contains_key(doc_id@) {
                without_text(old(self).lists(), doc_id@, tx_id)
            } else {
                old(self).lists()
            }),
    {
        if !self.document_store.contains_key(doc_id) {
            return Ok(());
        }
        let n: usize = self.inverted_index.entries.len();
        let mut i: usize = 0;
        while i < n
            invariant
                i <= n == self.inverted_index.entries@.len() == old(self).inverted_index.entries@.len(),
                self.wf(),
                self.same_identity(old(self)),
                self.document_store == old(self).document_store,
                self.num_documents == old(self).num_documents,
                self.num_terms == old(self).num_terms,
                self.inverted_index.keys() == old(self).inverted_index.keys(),
                forall|j: int|
                    0 <= j < i ==> (#[trigger] self.inverted_index.entries@[j]).1@
                        == with_tombstones(old(self).inverted_index.entries@[j].1@, doc_id@, tx_id),
                forall|j: int|
                    i <= j < n ==> #[trigger] self.inverted_index.entries@[j] == old(self).inverted_index.entries@[j],
            decreases n - i,
        {
            let list = self.inverted_index.value_mut(i);
            list.delete_document(doc_id, tx_id);
            i += 1;
        }
        proof {
            lemma_lists_mapped(
                self.inverted_index,
                old(self).inverted_index,
                |l: Seq<PostingView>| with_tombstones(l, doc_id@, tx_id),
            );
            assert(self.lists() =~= without_text(old(self).lists(), doc_id@, tx_id));
        }
        Ok(())
    }

    /// Deletes a document and adds it again with new fields.
    pub fn update_document(
        &mut self,
        doc_id: &[u8],
        fields: &[TextField<'_>],
        tx_id: TransactionId,
        commit_lsn: LogSequenceNumber,
    ) -> (r: TableResult<()>)
        requires
            old(self).wf(),
            old(self).num_documents < u64::MAX,
        ensures
            r is Ok,
            final(self).wf(),
            final(self).same_identity(old(self)),
            final(self).lists() == with_fields(
                if old(self).document_store@.contains_key(doc_id@) {
                    without_text(old(self).lists(), doc_id@, tx_id)
                } else {
                    old(self).lists()
                },
                old(self).tokenizer,
                fields@,
                fields@.len() as int,
                doc_id@,
                tx_id,
                old(self).enable_positions,
            ),
            forall|f: int, i: int|
                0 <= f < fields@.len() && 0 <= i < old(self).tokenizer.terms(fields@[f].text@).len()
                    ==> is_noted(
                    final(self).lists(),
                    encode_utf8(#[trigger] old(self).tokenizer.terms(fields@[f].text@)[i]),
                    doc_id@,
                    fields@[f].name@,
                    tx_id,
                ),
            final(self).document_store@.dom() == old(self).document_store@.dom().insert(doc_id@),
            forall|d: Seq<u8>|
                d != doc_id@ && #[trigger] old(self).document_store@.contains_key(d)
                    ==> final(self).document_store@[d] == old(self).document_store@[d],
            final(self).document_store@[doc_id@].doc_id@ == doc_id@,
            final(self).document_store@[doc_id@].fields@.len() == fields@.len(),
            forall|i: int|
                0 <= i < fields@.len() ==> (
                #[trigger] final(self).document_store@[doc_id@].fields@[i]).0@ == fields@[i].name@
                    && final(self).document_store@[doc_id@].fields@[i].1@ == fields@[i].text@,
            final(self).num_documents == old(self).num_documents + (if old(self).document_store@.contains_key(doc_id@) {
                0int
            } else {
                1int
            }),
            final(self).num_terms == final(self).lists().dom().len() as u64,
    {
        match self.delete_document(doc_id, tx_id, commit_lsn) {
            Ok(()) => self.index_document(doc_id, fields, tx_id, commit_lsn),
            Err(e) => Err(e),
        }
    }

    /// Commits all pending versions.
    pub fn commit_versions(&mut self, lsn: LogSequenceNumber) -> (r: TableResult<()>)
        requires
            old(self).wf(),
        ensures
            r is Ok,
            final(self).wf(),
            final(self).same_identity(old(self)),
            final(self).document_store == old(self).document_store,
            final(self).num_documents == old(self).num_documents,
            final(self).num_terms == old(self).num_terms,
            final(self).lists() == with_all_commits(old(self).lists(), lsn),
    {
        let n: usize = self.inverted_index.entries.len();
        let mut i: usize = 0;
        while i < n
            invariant
                i <= n == self.inverted_index.entries@.len() == old(self).inverted_index.entries@.len(),
                self.wf(),
                self.same_identity(old(self)),
                self.document_store == old(self).document_store,
                self.num_documents == old(self).num_documents,
                self.num_terms == old(self).num_terms,
                self.inverted_index.keys() == old(self).inverted_index.keys(),
                forall|j: int|
                    0 <= j < i ==> (#[trigger] self.inverted_index.entries@[j]).1@ == with_commits(
                        old(self).inverted_index.entries@[j].1@,
                        lsn,
                    ),
                forall|j: int|
                    i <= j < n ==> #[trigger] self.inverted_index.entries@[j] == old(self).inverted_index.entries@[j],
            decreases n - i,
        {
            let list = self.inverted_index.value_mut(i);
            list.commit_versions(lsn);
            i += 1;
        }
        proof {
            lemma_lists_mapped(
                self.inverted_index,
                old(self).inverted_index,
                |l: Seq<PostingView>| with_commits(l, lsn),
            );
            assert(self.lists() =~= with_all_commits(old(self).lists(), lsn));
        }
        Ok(())
    }

    /// Drops the versions that no reader from `min_visible_lsn` on sees, but for one base
    /// version per posting. Returns how many went.
    pub fn vacuum(&mut self, min_visible_lsn: LogSequenceNumber) -> (r: TableResult<usize>)
        requires
            old(self).wf(),
        ensures
            r is Ok,
            r->Ok_0 as int == saturated(
                all_versions(
                    old(self).inverted_index,
                    old(self).inverted_index.entries@.len() as int,
                ) - all_versions(
                    final(self).inverted_index,
                    final(self).inverted_index.entries@.len() as int,
                ),
            ),
            final(self).wf(),
            final(self).same_identity(old(self)),
            final(self).document_store == old(self).document_store,
            final(self).num_documents == old(self).num_documents,
            final(self).num_terms == old(self).num_terms,
            final(self).lists() == old(self).lists().map_values(
                |l: Seq<PostingView>| with_vacuums(l, min_visible_lsn),
            ),
    {
        let n: usize = self.inverted_index.entries.len();
        let mut i: usize = 0;
        let mut removed: usize = 0;
        while i < n
            invariant
                i <= n == self.inverted_index.entries@.len() == old(self).inverted_index.entries@.len(),
                self.wf(),
                self.same_identity(old(self)),
                self.document_store == old(self).document_store,
                self.num_documents == old(self).num_documents,
                self.num_terms == old(self).num_terms,
                self.inverted_index.keys() == old(self).inverted_index.keys(),
                forall|j: int|
                    0 <= j < i ==> (#[trigger] self.inverted_index.entries@[j]).1@ == with_vacuums(
                        old(self).inverted_index.entries@[j].1@,
                        min_visible_lsn,
                    ),
                forall|j: int|
                    i <= j < n ==> #[trigger] self.inverted_index.entries@[j] == old(self).inverted_index.entries@[j],
                removed as int == saturated(
                    all_versions(old(self).inverted_index, i as int) - all_versions(
                        self.inverted_index,
                        i as int,
                    ),
                ),
                all_versions(self.inverted_index, i as int) <= all_versions(
                    old(self).inverted_index,
                    i as int,
                ),
            decreases n - i,
        {
            let ghost before = self.inverted_index;
            let list = self.inverted_index.value_mut(i);
            let count: usize = list.vacuum(min_visible_lsn);
            removed = removed.saturating_add(count);
            proof {
                lemma_all_versions(before, self.inverted_index, i as int);
            }
            i += 1;
        }
        proof {
            lemma_lists_mapped(
                self.inverted_index,
                old(self).inverted_index,
                |l: Seq<PostingView>| with_vacuums(l, min_visible_lsn),
            );
        }
        Ok(removed)
    }
}

proof fn lemma_all_versions(a: ByteMap<PostingList>, b: ByteMap<PostingList>, n: int)
    requires
        0 <= n <= a.entries@.len(),
        n <= b.entries@.len(),
        forall|j: int| 0 <= j < n ==> #[trigger] a.entries@[j] == b.entries@[j],
    ensures
        all_versions(a, n) == all_versions(b, n),
    decreases n,
{
    if n > 0 {
        lemma_all_versions(a, b, n - 1);
    }
}

proof fn lemma_lists_mapped(
    after: ByteMap<PostingList>,
    before: ByteMap<PostingList>,
    f: spec_fn(Seq<PostingView>) -> Seq<PostingView>,
)
    requires
        before.wf(),
        after.wf(),
        after.keys() == before.keys(),
        after.entries@.len() == before.entries@.len(),
        forall|j: int|
            0 <= j < after.entries@.len() ==> (#[trigger] after.entries@[j]).1@ == f(
                before.entries@[j].1@,
            ),
    ensures
        after@.map_values(|l: PostingList| l@) == before@.map_values(
            |l: PostingList| l@,
        ).map_values(f),
{
    let a = after@.map_values(|l: PostingList| l@);
    let b = before@.map_values(|l: PostingList| l@).map_values(f);
    assert forall|k: Seq<u8>| a.contains_key(k) implies #[trigger] a[k] == b[k] by {
        let i = after.lemma_key(k);
        assert(after.keys()[i] == k);
        before.lemma_entry(i);
        assert(before.keys()[i] == k);
    }
    assert(a =~= b);
}

} // verus!
