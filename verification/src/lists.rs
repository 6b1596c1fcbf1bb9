//! The list of pages: which pages a tag query picks, and how often the tags
//! of the picked pages occur over all pages.
use crate::html::{
    law_document_holds_body, list_tag_text, row_text, title_fits, counts_view, document_text, html_checked,
    html_pages, pages_text, pages_view, blank, ACTIVE, COUNT_CLOSE, LIST_ALL_COUNT, LIST_ALL_OPEN,
    LIST_CLOSE, LIST_OPEN, LIST_PAGES,
};
use crate::outside::{clean, sanitized};
use crate::page::{lemma_text_less_irreflexive, lemma_text_less_total, lemma_text_less_transitive, text_less, text_lt, Page, PageView, Pages};
use crate::route::{error_reply, error_reply_spec};
use crate::state::State;
use crate::text::{concat_map, has_part, int_text, lemma_has_part_mid, lemma_has_part_trans, slice, str_eq};
use vstd::prelude::*;

verus! {

// ---------------------------------------------------------------------------
// the tag query

/// May stand in a tag query: a digit, or anything from `A` to `z` (the class
/// `[0-9A-za-z]`, which also holds `[`, `\`, `]`, `^`, `_` and the
/// backquote).
pub open spec fn is_tag_char(c: char) -> bool {
    ('0' <= c && c <= '9') || ('A' <= c && c <= 'z')
}

fn tag_char(c: char) -> (r: bool)
    ensures
        r == is_tag_char(c),
{
    ('0' <= c && c <= '9') || ('A' <= c && c <= 'z')
}

/// `tag=` and a tag character start at position `i` of `q`.
pub open spec fn tag_at(q: Seq<char>, i: int) -> bool {
    0 <= i && i + 5 <= q.len() && q[i] == 't' && q[i + 1] == 'a' && q[i + 2] == 'g' && q[i + 3] == '='
        && is_tag_char(q[i + 4])
}

/// The first position where a tag query starts.
pub open spec fn first_tag(q: Seq<char>) -> Option<nat>
    decreases q.len(),
{
    if q.len() == 0 {
        None
    } else if tag_at(q, 0) {
        Some(0)
    } else {
        match first_tag(q.skip(1)) {
            Some(i) => Some(i + 1),
            None => None,
        }
    }
}

/// How many characters at the front of `s` are tag characters.
pub open spec fn lead_tag(s: Seq<char>) -> nat
    decreases s.len(),
{
    if s.len() > 0 && is_tag_char(s[0]) {
        1 + lead_tag(s.skip(1))
    } else {
        0
    }
}

/// The tag that a query string asks for (`[?&]?tag=([0-9A-za-z]+)`): the run
/// of tag characters after the first `tag=` that has one.
pub open spec fn tag_capture(q: Seq<char>) -> Option<Seq<char>> {
    match first_tag(q) {
        Some(i) => {
            let s = q.skip((i + 4) as int);
            Some(s.take(lead_tag(s) as int))
        },
        None => None,
    }
}

/// The query: the asked-for tag, sanitized, or nothing.
pub open spec fn query_of(q: Seq<char>) -> Seq<char> {
    match tag_capture(q) {
        Some(c) => sanitized(c),
        None => Seq::empty(),
    }
}

proof fn lemma_first_tag(q: Seq<char>, k: int)
    requires
        0 <= k <= q.len(),
        forall|j: int| 0 <= j < k ==> !tag_at(q, j),
        k < q.len() ==> tag_at(q, k),
    ensures
        first_tag(q) == (if k < q.len() {
            Some(k as nat)
        } else {
            None
        }),
    decreases k,
{
    if k > 0 {
        assert forall|j: int| 0 <= j < k - 1 implies !tag_at(q.skip(1), j) by {
            assert(!tag_at(q, j + 1));
            if tag_at(q.skip(1), j) {
                assert(q.skip(1)[j] == q[j + 1]);
                assert(q.skip(1)[j + 1] == q[j + 2]);
                assert(q.skip(1)[j + 2] == q[j + 3]);
                assert(q.skip(1)[j + 3] == q[j + 4]);
                assert(q.skip(1)[j + 4] == q[j + 5]);
            }
        }
        if k < q.len() {
            assert(q.skip(1)[k - 1] == q[k]);
            assert(q.skip(1)[k] == q[k + 1]);
            assert(q.skip(1)[k + 1] == q[k + 2]);
            assert(q.skip(1)[k + 2] == q[k + 3]);
            assert(q.skip(1)[k + 3] == q[k + 4]);
        }
        lemma_first_tag(q.skip(1), k - 1);
        assert(!tag_at(q, 0));
    }
}

proof fn lemma_lead_tag(s: Seq<char>, k: int)
    requires
        0 <= k <= s.len(),
        forall|i: int| 0 <= i < k ==> is_tag_char(#[trigger] s[i]),
        k < s.len() ==> !is_tag_char(s[k]),
    ensures
        lead_tag(s) == k,
    decreases k,
{
    if k > 0 {
        lemma_lead_tag(s.skip(1), k - 1);
    }
}

fn is_tag_at(q: &str, i: usize) -> (r: bool)
    requires
        i <= q@.len(),
    ensures
        r == tag_at(q@, i as int),
{
    let n = q.unicode_len();
    if n - i < 5 {
        return false;
    }
    q.get_char(i) == 't' && q.get_char(i + 1) == 'a' && q.get_char(i + 2) == 'g' && q.get_char(i + 3)
        == '=' && tag_char(q.get_char(i + 4))
}

/// The tag a query string asks for, sanitized, or an empty string.
pub fn tag_query(q: &str) -> (r: String)
    ensures
        r@ == query_of(q@),
{
    match captured_tag(q) {
        Some(tag) => clean(tag.as_str()),
        None => String::new(),
    }
}

/// The tag a query string asks for, as it stands there.
pub fn captured_tag(q: &str) -> (r: Option<String>)
    ensures
        r matches Some(t) ==> tag_capture(q@) == Some(t@),
        r is None ==> tag_capture(q@) is None,
{
    let n = q.unicode_len();
    let mut i: usize = 0;
    while i < n && !is_tag_at(q, i)
        invariant
            n == q@.len(),
            i <= n,
            forall|j: int| 0 <= j < i ==> !tag_at(q@, j),
        decreases n - i,
    {
        i = i + 1;
    }
    proof {
        lemma_first_tag(q@, i as int);
    }
    if i == n {
        return None;
    }
    let start = i + 4;
    let mut j = start;
    while j < n && tag_char(q.get_char(j))
        invariant
            n == q@.len(),
            start <= j <= n,
            forall|k: int| start <= k < j ==> is_tag_char(#[trigger] q@[k]),
        decreases n - j,
    {
        j = j + 1;
    }
    proof {
        let s = q@.skip(start as int);
        assert forall|k: int| 0 <= k < j - start implies is_tag_char(#[trigger] s[k]) by {
            assert(s[k] == q@[start + k]);
        }
        lemma_lead_tag(s, j - start);
        assert(s.take(j - start) =~= q@.subrange(start as int, j as int));
    }
    Some(slice(q, start, j))
}

// ---------------------------------------------------------------------------
// picking pages and counting tags

/// The page is picked by the query: every page when the query is empty,
/// otherwise those tagged with it.
pub open spec fn selected(p: PageView, q: Seq<char>) -> bool {
    q.len() == 0 || p.tags.contains(q)
}

/// The picked pages, in order.
pub open spec fn chosen(ps: Seq<PageView>, q: Seq<char>) -> Seq<PageView>
    decreases ps.len(),
{
    if ps.len() == 0 {
        Seq::empty()
    } else {
        chosen(ps.drop_last(), q) + if selected(ps.last(), q) {
            seq![ps.last()]
        } else {
            Seq::empty()
        }
    }
}

/// The tags of the picked pages, in order.
pub open spec fn chosen_tags(ps: Seq<PageView>, q: Seq<char>) -> Seq<Seq<char>>
    decreases ps.len(),
{
    if ps.len() == 0 {
        Seq::empty()
    } else {
        chosen_tags(ps.drop_last(), q) + if selected(ps.last(), q) {
            ps.last().tags
        } else {
            Seq::empty()
        }
    }
}

/// The tags of all pages, in order.
pub open spec fn all_tags(ps: Seq<PageView>) -> Seq<Seq<char>>
    decreases ps.len(),
{
    if ps.len() == 0 {
        Seq::empty()
    } else {
        all_tags(ps.drop_last()) + ps.last().tags
    }
}

/// How often `t` occurs in `s`.
pub open spec fn count_in(s: Seq<Seq<char>>, t: Seq<char>) -> nat
    decreases s.len(),
{
    if s.len() == 0 {
        0
    } else {
        count_in(s.drop_last(), t) + if s.last() == t {
            1nat
        } else {
            0nat
        }
    }
}

/// The tag counts of the list: in order of tag, one entry for each tag of a
/// picked page, counting how often the tag occurs over all pages.
pub open spec fn tag_counts_ok(c: Seq<(Seq<char>, int)>, ps: Seq<PageView>, q: Seq<char>) -> bool {
    &&& forall|i: int, j: int| 0 <= i < j < c.len() ==> text_less(#[trigger] c[i].0, #[trigger] c[j].0)
    &&& forall|k: int|
        0 <= k < c.len() ==> chosen_tags(ps, q).contains(#[trigger] c[k].0) && c[k].1 == count_in(
            all_tags(ps),
            c[k].0,
        )
    &&& forall|t: Seq<char>|
        #[trigger] chosen_tags(ps, q).contains(t) ==> exists|k: int| 0 <= k < c.len() && c[k].0 == t
}

/// Every tag of a picked page occurs at most 32767 times over all pages (the
/// count is an `i16`; past that the site stops).
pub open spec fn counts_fit(ps: Seq<PageView>, q: Seq<char>) -> bool {
    forall|t: Seq<char>| #[trigger] chosen_tags(ps, q).contains(t) ==> count_in(all_tags(ps), t) <= 32767
}

proof fn lemma_count_push(s: Seq<Seq<char>>, x: Seq<char>, t: Seq<char>)
    ensures
        count_in(s.push(x), t) == count_in(s, t) + if x == t {
            1nat
        } else {
            0nat
        },
{
    assert(s.push(x).drop_last() =~= s);
}

proof fn lemma_count_positive(s: Seq<Seq<char>>, t: Seq<char>)
    ensures
        s.contains(t) <==> count_in(s, t) > 0,
    decreases s.len(),
{
    if s.len() > 0 {
        lemma_count_positive(s.drop_last(), t);
        if s.contains(t) && s.last() != t {
            let i = choose|i: int| 0 <= i < s.len() && s[i] == t;
            assert(s.drop_last()[i] == t);
        }
        if s.drop_last().contains(t) {
            let i = choose|i: int| 0 <= i < s.len() - 1 && s.drop_last()[i] == t;
            assert(s[i] == t);
        }
    }
}

proof fn lemma_count_prefix(s: Seq<Seq<char>>, a: int, b: int, t: Seq<char>)
    requires
        0 <= a <= b <= s.len(),
    ensures
        count_in(s.take(a), t) <= count_in(s.take(b), t),
    decreases b - a,
{
    if a < b {
        lemma_count_prefix(s, a, b - 1, t);
        assert(s.take(b).drop_last() =~= s.take(b - 1));
    }
}

proof fn lemma_all_tags_step(ps: Seq<PageView>, i: int)
    requires
        0 <= i < ps.len(),
    ensures
        all_tags(ps.take(i + 1)) == all_tags(ps.take(i)) + ps[i].tags,
{
    assert(ps.take(i + 1).drop_last() =~= ps.take(i));
}

proof fn lemma_all_tags_prefix(ps: Seq<PageView>, i: int)
    requires
        0 <= i <= ps.len(),
    ensures
        all_tags(ps.take(i)).len() <= all_tags(ps).len(),
        all_tags(ps).take(all_tags(ps.take(i)).len() as int) == all_tags(ps.take(i)),
    decreases ps.len() - i,
{
    if i == ps.len() {
        assert(ps.take(i) =~= ps);
        assert(all_tags(ps).take(all_tags(ps).len() as int) =~= all_tags(ps));
    } else {
        lemma_all_tags_prefix(ps, i + 1);
        assert(ps.take(i + 1).drop_last() =~= ps.take(i));
        let a = all_tags(ps.take(i));
        let b = all_tags(ps.take(i + 1));
        assert(b == a + ps[i].tags);
        assert(all_tags(ps).take(a.len() as int) =~= b.take(a.len() as int));
        assert(b.take(a.len() as int) =~= a);
    }
}

proof fn lemma_chosen_in_all(ps: Seq<PageView>, q: Seq<char>, t: Seq<char>)
    requires
        chosen_tags(ps, q).contains(t),
    ensures
        all_tags(ps).contains(t),
    decreases ps.len(),
{
    let d = ps.drop_last();
    let c = chosen_tags(d, q);
    let extra = if selected(ps.last(), q) {
        ps.last().tags
    } else {
        Seq::empty()
    };
    let i = choose|i: int| 0 <= i < chosen_tags(ps, q).len() && chosen_tags(ps, q)[i] == t;
    if i < c.len() {
        assert(c[i] == t);
        lemma_chosen_in_all(d, q, t);
        let j = choose|j: int| 0 <= j < all_tags(d).len() && all_tags(d)[j] == t;
        assert(all_tags(ps)[j] == t);
    } else {
        assert(extra[i - c.len()] == t);
        assert(all_tags(ps)[all_tags(d).len() + i - c.len()] == t);
    }
}

/// Whether some item of `v` is `t`.
fn contains_text(v: &Vec<String>, t: &str) -> (r: bool)
    ensures
        r == v.deep_view().contains(t@),
{
    let ghost dv = v.deep_view();
    let mut i: usize = 0;
    while i < v.len()
        invariant
            dv == v.deep_view(),
            i <= v.len(),
            forall|j: int| 0 <= j < i ==> dv[j] != t@,
        decreases v.len() - i,
    {
        if str_eq(v[i].as_str(), t) {
            assert(dv[i as int] == t@);
            return true;
        }
        i = i + 1;
    }
    false
}

/// The count list holds `t`.
pub open spec fn has_key(c: Seq<(Seq<char>, int)>, t: Seq<char>) -> bool {
    exists|k: int| 0 <= k < c.len() && #[trigger] c[k].0 == t
}

/// The entries are in strictly increasing order of tag.
pub open spec fn keys_sorted(c: Seq<(Seq<char>, int)>) -> bool {
    forall|i: int, j: int| 0 <= i < j < c.len() ==> text_less(#[trigger] c[i].0, #[trigger] c[j].0)
}

/// The count of `t` in the list: that of its entry, or 0.
pub open spec fn count_of(c: Seq<(Seq<char>, int)>, t: Seq<char>) -> int {
    if has_key(c, t) {
        c[key_index(c, t)].1
    } else {
        0
    }
}

/// The position of the entry of `t`, where there is one.
pub open spec fn key_index(c: Seq<(Seq<char>, int)>, t: Seq<char>) -> int {
    choose|k: int| 0 <= k < c.len() && #[trigger] c[k].0 == t
}

proof fn lemma_count_of(c: Seq<(Seq<char>, int)>, k: int)
    requires
        keys_sorted(c),
        0 <= k < c.len(),
    ensures
        count_of(c, c[k].0) == c[k].1,
{
    let t = c[k].0;
    assert(has_key(c, t));
    let j = key_index(c, t);
    assert(0 <= j < c.len() && c[j].0 == t);
    if j < k {
        assert(text_less(c[j].0, c[k].0));
        lemma_text_less_irreflexive(t);
    } else if j > k {
        assert(text_less(c[k].0, c[j].0));
        lemma_text_less_irreflexive(t);
    }
}

/// Counts one more `t`: bumps its entry, or puts in an entry of one in order.
fn bump(counts: &mut Vec<(String, i16)>, t: &str)
    requires
        keys_sorted(counts_view(old(counts)@)),
        count_of(counts_view(old(counts)@), t@) < 32767,
    ensures
        keys_sorted(counts_view(final(counts)@)),
        forall|u: Seq<char>|
            #[trigger] has_key(counts_view(final(counts)@), u) <==> (has_key(
                counts_view(old(counts)@),
                u,
            ) || u == t@),
        forall|u: Seq<char>|
            #[trigger] count_of(counts_view(final(counts)@), u) == count_of(counts_view(old(counts)@), u)
                + if u == t@ {
                1int
            } else {
                0int
            },
{
    let ghost c = counts_view(counts@);
    let n = counts.len();
    let mut k: usize = 0;
    let mut going = true;
    while going && k < n
        invariant
            n == counts@.len(),
            c == counts_view(counts@),
            c == counts_view(old(counts)@),
            keys_sorted(c),
            k <= n,
            forall|i: int| 0 <= i < k ==> text_less(#[trigger] c[i].0, t@),
            !going ==> k < n && !text_less(c[k as int].0, t@),
        decreases n - k + (if going { 1int } else { 0int }),
    {
        if text_lt(counts[k].0.as_str(), t) {
            k = k + 1;
        } else {
            going = false;
        }
    }
    proof {
        assert forall|i: int| k <= i < n implies !text_less(#[trigger] c[i].0, t@) by {
            if i > k {
                assert(text_less(c[k as int].0, c[i].0));
                if text_less(c[i].0, t@) {
                    lemma_text_less_transitive(c[k as int].0, c[i].0, t@);
                }
            }
        }
    }
    if k < n && str_eq(counts[k].0.as_str(), t) {
        proof {
            lemma_count_of(c, k as int);
        }
        let old_count = counts[k].1;
        let name = counts[k].0.clone();
        counts.set(k, (name, old_count + 1));
        proof {
            let d = counts_view(counts@);
            assert(d =~= c.update(k as int, (t@, c[k as int].1 + 1)));
            assert forall|i: int, j: int| 0 <= i < j < d.len() implies text_less(
                #[trigger] d[i].0,
                #[trigger] d[j].0,
            ) by {
                assert(d[i].0 == c[i].0);
                assert(d[j].0 == c[j].0);
            }
            assert forall|u: Seq<char>| #[trigger] has_key(d, u) <==> (has_key(c, u) || u == t@) by {
                if has_key(c, u) {
                    let j = choose|j: int| 0 <= j < c.len() && #[trigger] c[j].0 == u;
                    assert(d[j].0 == u);
                }
                if has_key(d, u) {
                    let j = choose|j: int| 0 <= j < d.len() && #[trigger] d[j].0 == u;
                    assert(c[j].0 == u);
                }
                if u == t@ {
                    assert(d[k as int].0 == u);
                }
            }
            assert forall|u: Seq<char>| #[trigger] count_of(d, u) == count_of(c, u) + if u == t@ {
                1int
            } else {
                0int
            } by {
                if has_key(d, u) {
                    let j = choose|j: int| 0 <= j < d.len() && #[trigger] d[j].0 == u;
                    lemma_count_of(d, j);
                    lemma_count_of(c, j);
                }
            }
        }
    } else {
        proof {
            if k < n {
                lemma_text_less_total(c[k as int].0, t@);
            }
            if has_key(c, t@) {
                let j = choose|j: int| 0 <= j < c.len() && #[trigger] c[j].0 == t@;
                lemma_text_less_irreflexive(t@);
                if j > k {
                    assert(text_less(c[k as int].0, c[j].0));
                }
            }
        }
        counts.insert(k, (crate::text::owned(t), 1i16));
        proof {
            let d = counts_view(counts@);
            assert(d =~= c.insert(k as int, (t@, 1int)));
            assert forall|i: int, j: int| 0 <= i < j < d.len() implies text_less(
                #[trigger] d[i].0,
                #[trigger] d[j].0,
            ) by {
                if j == k {
                    assert(d[i] == c[i]);
                } else if i == k {
                    assert(d[j] == c[j - 1]);
                    if j - 1 > k {
                        assert(text_less(c[k as int].0, c[j - 1].0));
                        lemma_text_less_transitive(t@, c[k as int].0, c[j - 1].0);
                    }
                } else if i < k && j > k {
                    assert(d[j] == c[j - 1]);
                    assert(d[i] == c[i]);
                    lemma_text_less_transitive(c[i].0, t@, c[k as int].0);
                    if j - 1 > k {
                        assert(text_less(c[k as int].0, c[j - 1].0));
                        lemma_text_less_transitive(c[i].0, c[k as int].0, c[j - 1].0);
                    }
                } else if j < k {
                    assert(d[j] == c[j]);
                    assert(d[i] == c[i]);
                } else {
                    assert(d[j] == c[j - 1]);
                    assert(d[i] == c[i - 1]);
                }
            }
            assert forall|u: Seq<char>| #[trigger] has_key(d, u) <==> (has_key(c, u) || u == t@) by {
                if has_key(c, u) {
                    let j = choose|j: int| 0 <= j < c.len() && #[trigger] c[j].0 == u;
                    if j < k {
                        assert(d[j].0 == u);
                    } else {
                        assert(d[j + 1].0 == u);
                    }
                }
                if has_key(d, u) {
                    let j = choose|j: int| 0 <= j < d.len() && #[trigger] d[j].0 == u;
                    if j < k {
                        assert(c[j].0 == u);
                    } else if j > k {
                        assert(c[j - 1].0 == u);
                    }
                }
                if u == t@ {
                    assert(d[k as int].0 == u);
                }
            }
            assert forall|u: Seq<char>| #[trigger] count_of(d, u) == count_of(c, u) + if u == t@ {
                1int
            } else {
                0int
            } by {
                if has_key(d, u) {
                    let j = choose|j: int| 0 <= j < d.len() && #[trigger] d[j].0 == u;
                    lemma_count_of(d, j);
                    if j < k {
                        lemma_count_of(c, j);
                    } else if j > k {
                        lemma_count_of(c, j - 1);
                    }
                }
            }
        }
    }
}

/// The query, the tag counts, and the picked pages of a list of pages.
pub fn pages_lists<'a>(input_query: &str, pages: &'a Pages) -> (r: (String, Vec<(String, i16)>, Vec<&'a Page>))
    requires
        pages.wf(),
        counts_fit(pages@, query_of(input_query@)),
    ensures
        r.0@ == query_of(input_query@),
        tag_counts_ok(counts_view(r.1@), pages@, r.0@),
        pages_view(r.2@) == chosen(pages@, r.0@),
{
    let query = tag_query(input_query);
    pages_for(query, pages)
}

/// The tag counts and the picked pages for a sanitized query, with the query.
pub fn pages_for<'a>(query: String, pages: &'a Pages) -> (r: (String, Vec<(String, i16)>, Vec<&'a Page>))
    requires
        pages.wf(),
        counts_fit(pages@, query@),
    ensures
        r.0@ == query@,
        tag_counts_ok(counts_view(r.1@), pages@, r.0@),
        pages_view(r.2@) == chosen(pages@, r.0@),
{
    let ghost q = query@;
    let ghost ps = pages@;
    let n = pages.len();
    let mut list: Vec<&'a Page> = Vec::new();
    let mut take: Vec<String> = Vec::new();
    let mut i: usize = 0;
    assert(ps.take(0) =~= Seq::<PageView>::empty());
    assert(pages_view(list@) =~= Seq::<PageView>::empty());
    assert(take.deep_view() =~= Seq::<Seq<char>>::empty());
    while i < n
        invariant
            n == ps.len(),
            ps == pages@,
            q == query@,
            i <= n,
            pages_view(list@) == chosen(ps.take(i as int), q),
            take.deep_view() == chosen_tags(ps.take(i as int), q),
        decreases n - i,
    {
        let page = pages.at(i);
        assert(ps.take(i + 1).drop_last() =~= ps.take(i as int));
        assert(ps.take(i + 1).last() == page@);
        if query.as_str().is_empty() || contains_text(&page.tags, query.as_str()) {
            let ghost before = pages_view(list@);
            list.push(page);
            assert(pages_view(list@) =~= before + seq![page@]);
            let ghost t0 = take.deep_view();
            let mut j: usize = 0;
            assert(page.tags.deep_view().take(0) =~= Seq::<Seq<char>>::empty());
            assert(t0 + Seq::<Seq<char>>::empty() =~= t0);
            while j < page.tags.len()
                invariant
                    t0 == chosen_tags(ps.take(i as int), q),
                    j <= page.tags.len(),
                    take.deep_view() == t0 + page.tags.deep_view().take(j as int),
                decreases page.tags.len() - j,
            {
                let ghost tb = take.deep_view();
                let tag = page.tags[j].clone();
                assert(tag@ == page.tags.deep_view()[j as int]);
                take.push(tag);
                assert(take.deep_view() =~= tb.push(page.tags.deep_view()[j as int]));
                assert(page.tags.deep_view().take(j + 1) =~= page.tags.deep_view().take(j as int).push(
                    page.tags.deep_view()[j as int],
                ));
                assert(take.deep_view() =~= t0 + page.tags.deep_view().take(j + 1));
                j = j + 1;
            }
            assert(page.tags.deep_view().take(page.tags.len() as int) =~= page.tags.deep_view());
        } else {
            assert(chosen(ps.take(i + 1), q) =~= chosen(ps.take(i as int), q));
            assert(chosen_tags(ps.take(i + 1), q) =~= chosen_tags(ps.take(i as int), q));
        }
        i = i + 1;
    }
    assert(ps.take(n as int) =~= ps);
    let ghost chosen_t = chosen_tags(ps, q);
    let ghost every = all_tags(ps);
    let mut counts: Vec<(String, i16)> = Vec::new();
    let mut i: usize = 0;
    assert(all_tags(ps.take(0)) =~= Seq::<Seq<char>>::empty());
    while i < n
        invariant
            n == ps.len(),
            ps == pages@,
            q == query@,
            chosen_t == chosen_tags(ps, q),
            every == all_tags(ps),
            take.deep_view() == chosen_t,
            counts_fit(ps, q),
            i <= n,
            keys_sorted(counts_view(counts@)),
            forall|u: Seq<char>|
                #[trigger] has_key(counts_view(counts@), u) <==> (chosen_t.contains(u) && all_tags(
                    ps.take(i as int),
                ).contains(u)),
            forall|u: Seq<char>|
                has_key(counts_view(counts@), u) ==> #[trigger] count_of(counts_view(counts@), u)
                    == count_in(all_tags(ps.take(i as int)), u),
        decreases n - i,
    {
        let page = pages.at(i);
        let ghost done = all_tags(ps.take(i as int));
        proof {
            lemma_all_tags_step(ps, i as int);
            lemma_all_tags_prefix(ps, i as int + 1);
        }
        let ghost tags = page.tags.deep_view();
        assert(tags == ps[i as int].tags);
        let mut j: usize = 0;
        assert(tags.take(0) =~= Seq::<Seq<char>>::empty());
        assert(done + tags.take(0) =~= done);
        while j < page.tags.len()
            invariant
                chosen_t == chosen_tags(ps, q),
                every == all_tags(ps),
                take.deep_view() == chosen_t,
                counts_fit(ps, q),
                tags == page.tags.deep_view(),
                j <= tags.len(),
                (done + tags).len() <= every.len(),
                every.take((done + tags).len() as int) == done + tags,
                keys_sorted(counts_view(counts@)),
                forall|u: Seq<char>|
                    #[trigger] has_key(counts_view(counts@), u) <==> (chosen_t.contains(u) && (done
                        + tags.take(j as int)).contains(u)),
                forall|u: Seq<char>|
                    has_key(counts_view(counts@), u) ==> #[trigger] count_of(counts_view(counts@), u)
                        == count_in(done + tags.take(j as int), u),
            decreases tags.len() - j,
        {
            let tag = page.tags[j].as_str();
            let ghost seen = done + tags.take(j as int);
            let ghost next = done + tags.take(j + 1);
            assert(next =~= seen.push(tag@));
            proof {
                assert forall|u: Seq<char>| #[trigger] next.contains(u) <==> (seen.contains(u) || u == tag@) by {
                    if next.contains(u) {
                        let x = choose|x: int| 0 <= x < next.len() && next[x] == u;
                        if x < seen.len() {
                            assert(seen[x] == u);
                        }
                    }
                    if seen.contains(u) {
                        let x = choose|x: int| 0 <= x < seen.len() && seen[x] == u;
                        assert(next[x] == u);
                    }
                    if u == tag@ {
                        assert(next[seen.len() as int] == u);
                    }
                }
                assert forall|u: Seq<char>| #[trigger] count_in(next, u) == count_in(seen, u) + if u == tag@ {
                    1nat
                } else {
                    0nat
                } by {
                    lemma_count_push(seen, tag@, u);
                }
            }
            if contains_text(&take, tag) {
                proof {
                    assert(every.take(next.len() as int) =~= next) by {
                        assert((done + tags).take(next.len() as int) =~= next);
                        assert(every.take((done + tags).len() as int).take(next.len() as int) =~= every.take(next.len() as int));
                    }
                    lemma_count_prefix(every, next.len() as int, every.len() as int, tag@);
                    assert(every.take(every.len() as int) =~= every);
                    if !has_key(counts_view(counts@), tag@) {
                        assert(count_of(counts_view(counts@), tag@) == 0);
                        lemma_count_positive(seen, tag@);
                    }
                }
                bump(&mut counts, tag);
            }
            j = j + 1;
        }
        assert(tags.take(tags.len() as int) =~= tags);
        i = i + 1;
    }
    proof {
        assert(ps.take(n as int) =~= ps);
        let c = counts_view(counts@);
        assert forall|k: int| 0 <= k < c.len() implies chosen_t.contains(#[trigger] c[k].0) && c[k].1
            == count_in(every, c[k].0) by {
            assert(has_key(c, c[k].0));
            lemma_count_of(c, k);
        }
        assert forall|t: Seq<char>| #[trigger] chosen_t.contains(t) implies exists|k: int|
            0 <= k < c.len() && c[k].0 == t by {
            lemma_chosen_in_all(ps, q, t);
            assert(has_key(c, t));
        }
    }
    (query, counts, list)
}

/// How often `t` occurs over the tags of all pages, counted up to 32768.
fn count_capped(pages: &Pages, t: &str) -> (r: u16)
    ensures
        r as int == if count_in(all_tags(pages@), t@) > 32767 {
            32768
        } else {
            count_in(all_tags(pages@), t@) as int
        },
{
    let ghost ps = pages@;
    let ghost every = all_tags(ps);
    let n = pages.len();
    let mut count: u16 = 0;
    let mut i: usize = 0;
    assert(all_tags(ps.take(0)) =~= Seq::<Seq<char>>::empty());
    while i < n
        invariant
            n == ps.len(),
            ps == pages@,
            every == all_tags(ps),
            i <= n,
            count as int == count_in(all_tags(ps.take(i as int)), t@),
            count <= 32767,
        decreases n - i,
    {
        let page = pages.at(i);
        let ghost done = all_tags(ps.take(i as int));
        proof {
            lemma_all_tags_step(ps, i as int);
            lemma_all_tags_prefix(ps, i as int + 1);
        }
        let ghost tags = page.tags.deep_view();
        assert(tags == ps[i as int].tags);
        assert(done + tags.take(0) =~= done);
        let mut j: usize = 0;
        while j < page.tags.len()
            invariant
                ps == pages@,
                every == all_tags(ps),
                tags == page.tags.deep_view(),
                j <= tags.len(),
                (done + tags).len() <= every.len(),
                every.take((done + tags).len() as int) == done + tags,
                count as int == count_in(done + tags.take(j as int), t@),
                count <= 32767,
            decreases tags.len() - j,
        {
            let ghost seen = done + tags.take(j as int);
            let ghost next = done + tags.take(j + 1);
            assert(next =~= seen.push(tags[j as int]));
            proof {
                lemma_count_push(seen, tags[j as int], t@);
            }
            assert(tags[j as int] == page.tags@[j as int]@);
            if str_eq(page.tags[j].as_str(), t) {
                count = count + 1;
                if count > 32767 {
                    proof {
                        assert((done + tags).take(next.len() as int) =~= next);
                        assert(every.take((done + tags).len() as int).take(next.len() as int)
                            =~= every.take(next.len() as int));
                        lemma_count_prefix(every, next.len() as int, every.len() as int, t@);
                        assert(every.take(every.len() as int) =~= every);
                    }
                    return 32768;
                }
            }
            j = j + 1;
        }
        assert(tags.take(tags.len() as int) =~= tags);
        i = i + 1;
    }
    assert(ps.take(n as int) =~= ps);
    count
}

proof fn lemma_chosen_tags_step(ps: Seq<PageView>, q: Seq<char>, i: int)
    requires
        0 <= i < ps.len(),
    ensures
        chosen_tags(ps.take(i + 1), q) == chosen_tags(ps.take(i), q) + if selected(ps[i], q) {
            ps[i].tags
        } else {
            Seq::empty()
        },
{
    assert(ps.take(i + 1).drop_last() =~= ps.take(i));
}

/// Whether counting the tags of the picked pages stays within an `i16`.
pub fn counts_check(pages: &Pages, query: &str) -> (r: bool)
    ensures
        r == counts_fit(pages@, query@),
{
    let ghost ps = pages@;
    let ghost q = query@;
    let n = pages.len();
    let mut i: usize = 0;
    assert(chosen_tags(ps.take(0), q) =~= Seq::<Seq<char>>::empty());
    while i < n
        invariant
            n == ps.len(),
            ps == pages@,
            q == query@,
            i <= n,
            forall|t: Seq<char>| #[trigger] chosen_tags(ps.take(i as int), q).contains(t) ==> count_in(
                all_tags(ps),
                t,
            ) <= 32767,
        decreases n - i,
    {
        let page = pages.at(i);
        proof {
            lemma_chosen_tags_step(ps, q, i as int);
        }
        let ghost before = chosen_tags(ps.take(i as int), q);
        let ghost tags = page.tags.deep_view();
        assert(tags == ps[i as int].tags);
        if query.is_empty() || contains_text(&page.tags, query) {
            assert(selected(ps[i as int], q));
            let mut j: usize = 0;
            while j < page.tags.len()
                invariant
                    ps == pages@,
                    q == query@,
                    n == ps.len(),
                    i < n,
                    before == chosen_tags(ps.take(i as int), q),
                    chosen_tags(ps.take(i + 1), q) == before + tags,
                    tags == page.tags.deep_view(),
                    j <= tags.len(),
                    forall|t: Seq<char>| #[trigger] before.contains(t) ==> count_in(all_tags(ps), t) <= 32767,
                    forall|k: int| 0 <= k < j ==> count_in(all_tags(ps), #[trigger] tags[k]) <= 32767,
                decreases tags.len() - j,
            {
                assert(tags[j as int] == page.tags@[j as int]@);
                if count_capped(pages, page.tags[j].as_str()) > 32767 {
                    proof {
                        let t = tags[j as int];
                        let whole = chosen_tags(ps.take(i + 1), q);
                        assert(whole[before.len() + j] == t);
                        lemma_chosen_prefix(ps, q, i + 1);
                        let w2 = chosen_tags(ps, q);
                        assert(w2[before.len() + j] == t);
                        assert(w2.contains(t));
                        assert(count_in(all_tags(ps), t) > 32767);
                    }
                    return false;
                }
                j = j + 1;
            }
            proof {
                assert forall|t: Seq<char>| #[trigger] chosen_tags(ps.take(i + 1), q).contains(t)
                    implies count_in(all_tags(ps), t) <= 32767 by {
                    let whole = chosen_tags(ps.take(i + 1), q);
                    let x = choose|x: int| 0 <= x < whole.len() && whole[x] == t;
                    if x < before.len() {
                        assert(before[x] == t);
                        assert(before.contains(t));
                    } else {
                        assert(tags[x - before.len()] == t);
                    }
                }
            }
        } else {
            assert(chosen_tags(ps.take(i + 1), q) =~= before);
        }
        i = i + 1;
    }
    assert(ps.take(n as int) =~= ps);
    true
}

/// The tags of the pages picked from a prefix come first among the tags of
/// all picked pages.
proof fn lemma_chosen_prefix(ps: Seq<PageView>, q: Seq<char>, i: int)
    requires
        0 <= i <= ps.len(),
    ensures
        chosen_tags(ps.take(i), q).len() <= chosen_tags(ps, q).len(),
        chosen_tags(ps, q).take(chosen_tags(ps.take(i), q).len() as int) == chosen_tags(ps.take(i), q),
    decreases ps.len() - i,
{
    if i == ps.len() {
        assert(ps.take(i) =~= ps);
        assert(chosen_tags(ps, q).take(chosen_tags(ps, q).len() as int) =~= chosen_tags(ps, q));
    } else {
        lemma_chosen_prefix(ps, q, i + 1);
        lemma_chosen_tags_step(ps, q, i);
        let a = chosen_tags(ps.take(i), q);
        let b = chosen_tags(ps.take(i + 1), q);
        assert(chosen_tags(ps, q).take(a.len() as int) =~= b.take(a.len() as int));
        assert(b.take(a.len() as int) =~= a);
    }
}

/// The list of pages for a query: a not-found notice where the query picks
/// none of the pages there are, otherwise the list.
pub open spec fn list_reply_ok(
    r: (u16, Seq<char>),
    site: Seq<char>,
    host: Seq<char>,
    input_query: Seq<char>,
    ps: Seq<PageView>,
) -> bool {
    let q = query_of(input_query);
    let picked = chosen(ps, q);
    if picked.len() == 0 && ps.len() > 0 {
        r == error_reply_spec(404, site, host, "pages"@, "no pages tagged"@, q)
    } else {
        r.0 == 200 && exists|c: Seq<(Seq<char>, int)>|
            tag_counts_ok(c, ps, q) && r.1 == document_text(
                ""@,
                site,
                sanitized(host),
                sanitized("pages"@),
                sanitized(q),
                Seq::empty(),
                pages_text(q, ps.len() as int, c, picked),
            )
    }
}

impl State {
    /// The answer for the list of pages, or `None` where the site stops (a
    /// tag count past an `i16`, or a link that does not fit the title).
    pub fn pages_reply(&self, host: &str, input_query: &str) -> (r: Option<(u16, String)>)
        requires
            self.wf(),
        ensures
            r matches Some(x) ==> list_reply_ok((x.0, x.1@), self.site@, host@, input_query@, self.pages@),
            r is None <==> (!counts_fit(self.pages@, query_of(input_query@)) || !title_fits(
                sanitized("pages"@),
            )),
    {
        let total = self.pages.len();
        let query = tag_query(input_query);
        if !counts_check(&self.pages, query.as_str()) {
            return None;
        }
        let (query, tags, list) = pages_lists(input_query, &self.pages);
        if list.len() == 0 && 0 < total {
            return error_reply(404, self.site.as_str(), host, "pages", "no pages tagged", query.as_str());
        }
        proof {
            let ps = self.pages@;
            assert forall|i: int| 0 <= i < list@.len() implies crate::outside::in_calendar(
                #[trigger] list@[i].time as int,
            ) && crate::outside::in_calendar(list@[i].lmod as int) by {
                assert(pages_view(list@)[i] == list@[i]@);
                lemma_chosen_member(ps, query@, i);
                let j = choose|j: int| 0 <= j < ps.len() && ps[j] == chosen(ps, query@)[i];
                assert(crate::outside::in_calendar(ps[j].time) && crate::outside::in_calendar(ps[j].lmod));
            }
        }
        let belly = html_pages(query.as_str(), total, &tags, &list);
        let scripts: Vec<String> = Vec::new();
        assert(scripts.deep_view() =~= Seq::<Seq<char>>::empty());
        match html_checked("", self.site.as_str(), host, "pages", query.as_str(), &scripts, belly.as_str()) {
            Some(body) => Some((200u16, body)),
            None => None,
        }
    }
}

/// The list answer for a query that picks some page counts every page the
/// site holds in its "all" entry, not only the picked ones: its body holds
/// `LIST_ALL_COUNT`, the decimal number of all pages, and `COUNT_CLOSE`.
pub proof fn law_list_counts_all_pages(
    r: (u16, Seq<char>),
    site: Seq<char>,
    host: Seq<char>,
    input_query: Seq<char>,
    ps: Seq<PageView>,
)
    requires
        list_reply_ok(r, site, host, input_query, ps),
        chosen(ps, query_of(input_query)).len() > 0,
    ensures
        r.0 == 200,
        has_part(r.1, LIST_ALL_COUNT@ + int_text(ps.len() as int) + COUNT_CLOSE@),
{
    let q = query_of(input_query);
    let picked = chosen(ps, q);
    let c = choose|c: Seq<(Seq<char>, int)>|
        tag_counts_ok(c, ps, q) && r.1 == document_text(
            ""@,
            site,
            sanitized(host),
            sanitized("pages"@),
            sanitized(q),
            Seq::empty(),
            pages_text(q, ps.len() as int, c, picked),
        );
    let belly = pages_text(q, ps.len() as int, c, picked);
    law_document_holds_body(
        ""@,
        site,
        sanitized(host),
        sanitized("pages"@),
        sanitized(q),
        Seq::empty(),
        belly,
    );
    let part = LIST_ALL_COUNT@ + int_text(ps.len() as int) + COUNT_CLOSE@;
    let a = LIST_OPEN@ + LIST_ALL_OPEN@ + crate::html::when(blank(q), ACTIVE@);
    let b = concat_map(c, |t: (Seq<char>, int)| list_tag_text(q, t.0, t.1)) + LIST_PAGES@ + concat_map(
        picked,
        |p: PageView| row_text(q, p),
    ) + LIST_CLOSE@;
    assert((a + part + b) =~= belly);
    lemma_has_part_mid(a, part, b);
    lemma_has_part_trans(r.1, belly, part);
}

/// Every picked page is one of the pages.
proof fn lemma_chosen_member(ps: Seq<PageView>, q: Seq<char>, i: int)
    requires
        0 <= i < chosen(ps, q).len(),
    ensures
        exists|j: int| 0 <= j < ps.len() && ps[j] == chosen(ps, q)[i],
    decreases ps.len(),
{
    let d = ps.drop_last();
    if i < chosen(d, q).len() {
        lemma_chosen_member(d, q, i);
        let j = choose|j: int| 0 <= j < d.len() && d[j] == chosen(d, q)[i];
        assert(ps[j] == d[j]);
    } else {
        assert(ps[ps.len() - 1] == ps.last());
    }
}

// ---------------------------------------------------------------------------
// laws

/// An empty query picks every page, in order.
pub proof fn law_empty_query_picks_all(ps: Seq<PageView>)
    ensures
        chosen(ps, Seq::empty()) == ps,
    decreases ps.len(),
{
    if ps.len() > 0 {
        law_empty_query_picks_all(ps.drop_last());
        assert(ps.drop_last() + seq![ps.last()] =~= ps);
    }
}

/// Every page a query picks carries the queried tag.
pub proof fn law_picked_pages_carry_tag(ps: Seq<PageView>, q: Seq<char>, i: int)
    requires
        q.len() > 0,
        0 <= i < chosen(ps, q).len(),
    ensures
        chosen(ps, q)[i].tags.contains(q),
    decreases ps.len(),
{
    let d = ps.drop_last();
    if i < chosen(d, q).len() {
        law_picked_pages_carry_tag(d, q, i);
    }
}

proof fn lemma_keys_after_first(c: Seq<(Seq<char>, int)>, t: Seq<char>)
    requires
        keys_sorted(c),
        c.len() > 0,
    ensures
        keys_sorted(c.skip(1)),
        has_key(c.skip(1), t) <==> (has_key(c, t) && t != c[0].0),
{
    let r = c.skip(1);
    assert forall|i: int, j: int| 0 <= i < j < r.len() implies text_less(#[trigger] r[i].0, #[trigger] r[j].0) by {
        assert(r[i] == c[i + 1] && r[j] == c[j + 1]);
    }
    if has_key(r, t) {
        let k = choose|k: int| 0 <= k < r.len() && #[trigger] r[k].0 == t;
        assert(c[k + 1].0 == t);
        assert(text_less(c[0].0, c[k + 1].0));
        lemma_text_less_irreflexive(t);
    }
    if has_key(c, t) && t != c[0].0 {
        let k = choose|k: int| 0 <= k < c.len() && #[trigger] c[k].0 == t;
        assert(r[k - 1].0 == t);
    }
}

proof fn lemma_same_keys(c1: Seq<(Seq<char>, int)>, c2: Seq<(Seq<char>, int)>)
    requires
        keys_sorted(c1),
        keys_sorted(c2),
        forall|t: Seq<char>| has_key(c1, t) <==> has_key(c2, t),
    ensures
        c1.len() == c2.len(),
        forall|k: int| 0 <= k < c1.len() ==> c1[k].0 == c2[k].0,
    decreases c1.len(),
{
    if c1.len() == 0 {
        if c2.len() > 0 {
            assert(has_key(c2, c2[0].0));
        }
    } else if c2.len() == 0 {
        assert(has_key(c1, c1[0].0));
    } else {
        let a = c1[0].0;
        let b = c2[0].0;
        assert(has_key(c1, a));
        assert(has_key(c2, b));
        if a != b {
            let j = choose|j: int| 0 <= j < c2.len() && #[trigger] c2[j].0 == a;
            let i = choose|i: int| 0 <= i < c1.len() && #[trigger] c1[i].0 == b;
            assert(text_less(c2[0].0, c2[j].0));
            assert(text_less(c1[0].0, c1[i].0));
            lemma_text_less_transitive(a, b, a);
            lemma_text_less_irreflexive(a);
        }
        assert forall|t: Seq<char>| has_key(c1.skip(1), t) <==> has_key(c2.skip(1), t) by {
            lemma_keys_after_first(c1, t);
            lemma_keys_after_first(c2, t);
        }
        lemma_keys_after_first(c1, a);
        lemma_keys_after_first(c2, a);
        lemma_same_keys(c1.skip(1), c2.skip(1));
        assert forall|k: int| 0 <= k < c1.len() implies c1[k].0 == c2[k].0 by {
            if k > 0 {
                assert(c1.skip(1)[k - 1] == c1[k]);
                assert(c2.skip(1)[k - 1] == c2[k]);
            }
        }
    }
}

/// The tag counts of a list are determined by the pages and the query: any
/// two lists that meet `tag_counts_ok` are the same.
pub proof fn law_tag_counts_unique(
    c1: Seq<(Seq<char>, int)>,
    c2: Seq<(Seq<char>, int)>,
    ps: Seq<PageView>,
    q: Seq<char>,
)
    requires
        tag_counts_ok(c1, ps, q),
        tag_counts_ok(c2, ps, q),
    ensures
        c1 == c2,
{
    assert forall|t: Seq<char>| has_key(c1, t) <==> has_key(c2, t) by {
        if has_key(c1, t) {
            let k = choose|k: int| 0 <= k < c1.len() && #[trigger] c1[k].0 == t;
            assert(chosen_tags(ps, q).contains(c1[k].0));
        }
        if has_key(c2, t) {
            let k = choose|k: int| 0 <= k < c2.len() && #[trigger] c2[k].0 == t;
            assert(chosen_tags(ps, q).contains(c2[k].0));
        }
    }
    lemma_same_keys(c1, c2);
    assert forall|k: int| 0 <= k < c1.len() implies c1[k] == c2[k] by {
        assert(c1[k].1 == count_in(all_tags(ps), c1[k].0));
        assert(c2[k].1 == count_in(all_tags(ps), c2[k].0));
    }
    assert(c1 =~= c2);
}

} // verus!
