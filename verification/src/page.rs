//! Pages, and the collection of pages that the site keeps, ordered by name.
use crate::outside::in_calendar;
use vstd::prelude::*;

verus! {

/// A rendered page of the site.
pub struct Page {
    pub name: String,
    pub link: String,
    pub time: i64,
    pub lmod: i64,
    pub tags: Vec<String>,
    pub html: String,
}

/// What a page holds, as plain values.
pub struct PageView {
    pub name: Seq<char>,
    pub link: Seq<char>,
    pub time: int,
    pub lmod: int,
    pub tags: Seq<Seq<char>>,
    pub html: Seq<char>,
}

impl View for Page {
    type V = PageView;

    open spec fn view(&self) -> PageView {
        PageView {
            name: self.name@,
            link: self.link@,
            time: self.time as int,
            lmod: self.lmod as int,
            tags: self.tags.deep_view(),
            html: self.html@,
        }
    }
}

/// `a` sorts before `b`, comparing characters by their code (the order of
/// `str`, which compares the UTF-8 bytes).
pub open spec fn text_less(a: Seq<char>, b: Seq<char>) -> bool
    decreases a.len(),
{
    if a.len() == 0 {
        b.len() > 0
    } else if b.len() == 0 {
        false
    } else if a[0] != b[0] {
        a[0] < b[0]
    } else {
        text_less(a.skip(1), b.skip(1))
    }
}

/// No text comes before itself.
pub proof fn lemma_text_less_irreflexive(a: Seq<char>)
    ensures
        !text_less(a, a),
    decreases a.len(),
{
    if a.len() > 0 {
        lemma_text_less_irreflexive(a.skip(1));
    }
}

/// The order of texts is transitive.
pub proof fn lemma_text_less_transitive(a: Seq<char>, b: Seq<char>, c: Seq<char>)
    requires
        text_less(a, b),
        text_less(b, c),
    ensures
        text_less(a, c),
    decreases a.len(),
{
    if a.len() > 0 && b.len() > 0 && c.len() > 0 && a[0] == b[0] && b[0] == c[0] {
        lemma_text_less_transitive(a.skip(1), b.skip(1), c.skip(1));
    }
}

/// Of two different texts, one comes before the other.
pub proof fn lemma_text_less_total(a: Seq<char>, b: Seq<char>)
    ensures
        a == b || text_less(a, b) || text_less(b, a),
    decreases a.len(),
{
    if a.len() > 0 && b.len() > 0 && a[0] == b[0] {
        lemma_text_less_total(a.skip(1), b.skip(1));
        if a.skip(1) == b.skip(1) {
            assert(a =~= seq![a[0]] + a.skip(1));
            assert(b =~= seq![b[0]] + b.skip(1));
        }
    } else if a.len() == 0 && b.len() == 0 {
        assert(a =~= b);
    }
}

/// Whether `a` sorts before `b`.
pub fn text_lt(a: &str, b: &str) -> (r: bool)
    ensures
        r == text_less(a@, b@),
{
    let na = a.unicode_len();
    let nb = b.unicode_len();
    let mut i: usize = 0;
    assert(a@.skip(0) =~= a@);
    assert(b@.skip(0) =~= b@);
    while i < na && i < nb
        invariant
            na == a@.len(),
            nb == b@.len(),
            i <= na,
            i <= nb,
            text_less(a@, b@) == text_less(a@.skip(i as int), b@.skip(i as int)),
        decreases na - i,
    {
        let ca = a.get_char(i);
        let cb = b.get_char(i);
        if ca != cb {
            return ca < cb;
        }
        assert(a@.skip(i as int).skip(1) =~= a@.skip(i + 1));
        assert(b@.skip(i as int).skip(1) =~= b@.skip(i + 1));
        i = i + 1;
    }
    i < nb
}

/// The entries are in strictly increasing order of name (so no name occurs
/// twice).
pub open spec fn sorted_by_name(s: Seq<PageView>) -> bool {
    forall|i: int, j: int| 0 <= i < j < s.len() ==> text_less(#[trigger] s[i].name, #[trigger] s[j].name)
}

/// Some entry has this name.
pub open spec fn has_name(s: Seq<PageView>, name: Seq<char>) -> bool {
    exists|i: int| 0 <= i < s.len() && #[trigger] s[i].name == name
}

/// The entry with this name, if any.
pub open spec fn lookup(s: Seq<PageView>, name: Seq<char>) -> Option<PageView> {
    if has_name(s, name) {
        Some(s[choose|i: int| 0 <= i < s.len() && #[trigger] s[i].name == name])
    } else {
        None
    }
}

/// How many entries have a name that sorts before `name`.
pub open spec fn rank(s: Seq<PageView>, name: Seq<char>) -> nat
    decreases s.len(),
{
    if s.len() == 0 {
        0
    } else {
        rank(s.drop_last(), name) + if text_less(s.last().name, name) {
            1nat
        } else {
            0nat
        }
    }
}

/// The entries with `p` put in: it replaces the entry of the same name, or
/// goes in after every entry whose name sorts before its own.
pub open spec fn put(s: Seq<PageView>, p: PageView) -> Seq<PageView> {
    if has_name(s, p.name) {
        s.update(choose|i: int| 0 <= i < s.len() && #[trigger] s[i].name == p.name, p)
    } else {
        s.insert(rank(s, p.name) as int, p)
    }
}

/// The pages' days can all be written by chrono.
pub open spec fn all_in_calendar(s: Seq<PageView>) -> bool {
    forall|i: int| 0 <= i < s.len() ==> in_calendar(#[trigger] s[i].time) && in_calendar(s[i].lmod)
}


/// In a sorted list, the entries whose names sort before `name` are exactly
/// the first `rank(s, name)`.
pub proof fn lemma_rank_sorted(s: Seq<PageView>, name: Seq<char>)
    requires
        sorted_by_name(s),
    ensures
        rank(s, name) <= s.len(),
        forall|i: int| 0 <= i < rank(s, name) ==> text_less(#[trigger] s[i].name, name),
        forall|i: int| rank(s, name) <= i < s.len() ==> !text_less(#[trigger] s[i].name, name),
    decreases s.len(),
{
    if s.len() > 0 {
        let d = s.drop_last();
        assert(sorted_by_name(d)) by {
            assert forall|i: int, j: int| 0 <= i < j < d.len() implies text_less(
                #[trigger] d[i].name,
                #[trigger] d[j].name,
            ) by {
                assert(d[i] == s[i] && d[j] == s[j]);
            }
        }
        lemma_rank_sorted(d, name);
        let last = s.len() - 1;
        if text_less(s[last].name, name) {
            if rank(d, name) < d.len() {
                let i = rank(d, name) as int;
                assert(text_less(s[i].name, s[last].name));
                lemma_text_less_transitive(s[i].name, s[last].name, name);
                assert(d[i] == s[i]);
            }
            assert forall|i: int| 0 <= i < rank(s, name) implies text_less(#[trigger] s[i].name, name) by {
                if i < last {
                    assert(text_less(s[i].name, s[last].name));
                    lemma_text_less_transitive(s[i].name, s[last].name, name);
                }
            }
        } else {
            assert forall|i: int| 0 <= i < rank(s, name) implies text_less(#[trigger] s[i].name, name) by {
                assert(d[i] == s[i]);
            }
            assert forall|i: int| rank(s, name) <= i < s.len() implies !text_less(
                #[trigger] s[i].name,
                name,
            ) by {
                if i < last {
                    assert(d[i] == s[i]);
                }
            }
        }
    }
}

/// Putting a page into a sorted list keeps it sorted.
pub proof fn law_put_keeps_order(s: Seq<PageView>, p: PageView)
    requires
        sorted_by_name(s),
    ensures
        sorted_by_name(put(s, p)),
{
    let t = put(s, p);
    if has_name(s, p.name) {
        let k = choose|i: int| 0 <= i < s.len() && #[trigger] s[i].name == p.name;
        assert forall|i: int, j: int| 0 <= i < j < t.len() implies text_less(
            #[trigger] t[i].name,
            #[trigger] t[j].name,
        ) by {
            assert(t[i].name == s[i].name);
            assert(t[j].name == s[j].name);
        }
    } else {
        lemma_rank_sorted(s, p.name);
        let k = rank(s, p.name) as int;
        if k < s.len() {
            lemma_text_less_total(s[k].name, p.name);
            assert(s[k].name != p.name);
        }
        assert forall|i: int, j: int| 0 <= i < j < t.len() implies text_less(
            #[trigger] t[i].name,
            #[trigger] t[j].name,
        ) by {
            if j == k {
                assert(t[i] == s[i]);
            } else if i == k {
                assert(t[j] == s[j - 1]);
                if j - 1 > k {
                    assert(text_less(s[k].name, s[j - 1].name));
                    lemma_text_less_transitive(p.name, s[k].name, s[j - 1].name);
                }
            } else if i < k && j > k {
                assert(t[j] == s[j - 1]);
                assert(t[i] == s[i]);
                lemma_text_less_transitive(s[i].name, p.name, s[k].name);
                if j - 1 > k {
                    assert(text_less(s[k].name, s[j - 1].name));
                    lemma_text_less_transitive(s[i].name, s[k].name, s[j - 1].name);
                }
            } else if j < k {
                assert(t[j] == s[j]);
                assert(t[i] == s[i]);
            } else {
                assert(t[j] == s[j - 1]);
                assert(t[i] == s[i - 1]);
            }
        }
    }
}

/// In a sorted list, `lookup` finds the one entry with the name.
pub proof fn lemma_lookup_at(s: Seq<PageView>, i: int)
    requires
        sorted_by_name(s),
        0 <= i < s.len(),
    ensures
        lookup(s, s[i].name) == Some(s[i]),
{
    let name = s[i].name;
    assert(has_name(s, name));
    let j = choose|j: int| 0 <= j < s.len() && #[trigger] s[j].name == name;
    if j < i {
        assert(text_less(s[j].name, s[i].name));
        lemma_text_less_irreflexive(name);
    } else if j > i {
        assert(text_less(s[i].name, s[j].name));
        lemma_text_less_irreflexive(name);
    }
}

/// What is read back after a write: once a page is put in, looking up its
/// name finds it, and looking up any other name finds what it found before.
pub proof fn law_put_then_lookup(s: Seq<PageView>, p: PageView, name: Seq<char>)
    requires
        sorted_by_name(s),
    ensures
        lookup(put(s, p), name) == if name == p.name {
            Some(p)
        } else {
            lookup(s, name)
        },
{
    let t = put(s, p);
    law_put_keeps_order(s, p);
    if has_name(s, p.name) {
        let k = choose|i: int| 0 <= i < s.len() && #[trigger] s[i].name == p.name;
        assert(t[k] == p);
        if name == p.name {
            lemma_lookup_at(t, k);
        } else {
            if has_name(s, name) {
                let i = choose|i: int| 0 <= i < s.len() && #[trigger] s[i].name == name;
                assert(t[i] == s[i]);
                lemma_lookup_at(s, i);
                lemma_lookup_at(t, i);
            } else if has_name(t, name) {
                let i = choose|i: int| 0 <= i < t.len() && #[trigger] t[i].name == name;
                assert(t[i] == s[i]);
            }
        }
    } else {
        lemma_rank_sorted(s, p.name);
        let k = rank(s, p.name) as int;
        assert(t[k] == p);
        if name == p.name {
            lemma_lookup_at(t, k);
        } else {
            if has_name(s, name) {
                let i = choose|i: int| 0 <= i < s.len() && #[trigger] s[i].name == name;
                if i < k {
                    assert(t[i] == s[i]);
                    lemma_lookup_at(t, i);
                } else {
                    assert(t[i + 1] == s[i]);
                    lemma_lookup_at(t, i + 1);
                }
                lemma_lookup_at(s, i);
            } else if has_name(t, name) {
                let i = choose|i: int| 0 <= i < t.len() && #[trigger] t[i].name == name;
                if i < k {
                    assert(t[i] == s[i]);
                } else if i > k {
                    assert(t[i] == s[i - 1]);
                }
            }
        }
    }
}

/// The site's pages, in order of name, as a map keyed by name keeps them.
pub struct Pages {
    list: Vec<Page>,
}

impl View for Pages {
    type V = Seq<PageView>;

    closed spec fn view(&self) -> Seq<PageView> {
        self.list@.map_values(|p: Page| p@)
    }
}

proof fn lemma_rank_split(s: Seq<PageView>, name: Seq<char>, k: int)
    requires
        0 <= k <= s.len(),
        forall|i: int| 0 <= i < k ==> text_less(#[trigger] s[i].name, name),
        forall|i: int| k <= i < s.len() ==> !text_less(#[trigger] s[i].name, name),
    ensures
        rank(s, name) == k,
    decreases s.len(),
{
    if s.len() > 0 {
        let d = s.drop_last();
        if k == s.len() {
            lemma_rank_split(d, name, k - 1);
        } else {
            lemma_rank_split(d, name, k);
        }
    }
}

proof fn lemma_calendar_at(s: Seq<PageView>, i: int)
    requires
        all_in_calendar(s),
        0 <= i < s.len(),
    ensures
        in_calendar(s[i].time) && in_calendar(s[i].lmod),
{
}

proof fn lemma_sorted_update(s: Seq<PageView>, k: int, p: PageView)
    requires
        sorted_by_name(s),
        all_in_calendar(s),
        0 <= k < s.len(),
        s[k].name == p.name,
        in_calendar(p.time),
        in_calendar(p.lmod),
    ensures
        sorted_by_name(s.update(k, p)),
        all_in_calendar(s.update(k, p)),
{
    let t = s.update(k, p);
    assert forall|i: int, j: int| 0 <= i < j < t.len() implies text_less(
        #[trigger] t[i].name,
        #[trigger] t[j].name,
    ) by {
        assert(t[i].name == s[i].name);
        assert(t[j].name == s[j].name);
    }
    assert forall|i: int| 0 <= i < t.len() implies in_calendar(#[trigger] t[i].time) && in_calendar(
        t[i].lmod,
    ) by {
        if i != k {
            assert(0 <= i < s.len());
            assert(t[i] == s[i]);
            lemma_calendar_at(s, i);
        }
    }
}

proof fn lemma_sorted_insert(s: Seq<PageView>, k: int, p: PageView)
    requires
        sorted_by_name(s),
        all_in_calendar(s),
        0 <= k <= s.len(),
        forall|i: int| 0 <= i < k ==> text_less(#[trigger] s[i].name, p.name),
        k < s.len() ==> text_less(p.name, s[k].name),
        in_calendar(p.time),
        in_calendar(p.lmod),
    ensures
        sorted_by_name(s.insert(k, p)),
        all_in_calendar(s.insert(k, p)),
{
    let t = s.insert(k, p);
    assert forall|i: int, j: int| 0 <= i < j < t.len() implies text_less(
        #[trigger] t[i].name,
        #[trigger] t[j].name,
    ) by {
        if j == k {
            assert(t[i] == s[i]);
        } else if i == k {
            assert(t[j] == s[j - 1]);
            if j - 1 > k {
                assert(text_less(s[k].name, s[j - 1].name));
                lemma_text_less_transitive(p.name, s[k].name, s[j - 1].name);
            }
        } else if i < k && j > k {
            assert(t[j] == s[j - 1]);
            assert(t[i] == s[i]);
            if k < s.len() {
                lemma_text_less_transitive(s[i].name, p.name, s[k].name);
                if j - 1 > k {
                    assert(text_less(s[k].name, s[j - 1].name));
                    lemma_text_less_transitive(s[i].name, s[k].name, s[j - 1].name);
                }
            }
        } else if j < k {
            assert(t[j] == s[j]);
            assert(t[i] == s[i]);
        } else {
            assert(t[j] == s[j - 1]);
            assert(t[i] == s[i - 1]);
        }
    }
    lemma_calendar_insert(s, k, p);
}

proof fn lemma_calendar_insert(s: Seq<PageView>, k: int, p: PageView)
    requires
        all_in_calendar(s),
        0 <= k <= s.len(),
        in_calendar(p.time),
        in_calendar(p.lmod),
    ensures
        all_in_calendar(s.insert(k, p)),
{
    let t = s.insert(k, p);
    assert forall|i: int| 0 <= i < t.len() implies in_calendar(#[trigger] t[i].time) && in_calendar(
        t[i].lmod,
    ) by {
        if i < k {
            assert(0 <= i < s.len());
            assert(t[i] == s[i]);
            lemma_calendar_at(s, i);
        } else if i > k {
            assert(t[i] == s[i - 1]);
            lemma_calendar_at(s, i - 1);
        } else {
            assert(t[i] == p);
        }
    }
}

impl Pages {
    /// The collection holds the pages in order and every page's days are in
    /// chrono's calendar.
    pub open spec fn wf(&self) -> bool {
        sorted_by_name(self@) && all_in_calendar(self@)
    }

    /// No pages.
    pub fn new() -> (r: Pages)
        ensures
            r@ == Seq::<PageView>::empty(),
            r.wf(),
    {
        let r = Pages { list: Vec::new() };
        assert(r@ =~= Seq::<PageView>::empty());
        r
    }

    /// The number of pages.
    pub fn len(&self) -> (r: usize)
        ensures
            r == self@.len(),
    {
        self.list.len()
    }

    /// The page at position `i`, in order of name.
    pub fn at(&self, i: usize) -> (r: &Page)
        requires
            i < self@.len(),
        ensures
            r@ == self@[i as int],
    {
        &self.list[i]
    }

    /// The position of the page with this name, if any.
    pub fn position(&self, name: &str) -> (r: Option<usize>)
        requires
            self.wf(),
        ensures
            r matches Some(i) ==> i < self@.len() && self@[i as int].name == name@,
            r is None ==> !has_name(self@, name@),
    {
        let n = self.list.len();
        let mut i: usize = 0;
        while i < n
            invariant
                n == self@.len(),
                n == self.list@.len(),
                i <= n,
                forall|j: int| 0 <= j < i ==> self@[j].name != name@,
            decreases n - i,
        {
            if crate::text::str_eq(self.list[i].name.as_str(), name) {
                return Some(i);
            }
            i = i + 1;
        }
        None
    }

    /// The page with this name, if any.
    pub fn get(&self, name: &str) -> (r: Option<&Page>)
        requires
            self.wf(),
        ensures
            r matches Some(p) ==> lookup(self@, name@) == Some(p@),
            r is None ==> lookup(self@, name@) is None,
    {
        match self.position(name) {
            Some(i) => {
                proof {
                    self.lemma_unique_name(i as int);
                }
                Some(&self.list[i])
            },
            None => None,
        }
    }

    /// Whether a page has this name.
    pub fn contains_key(&self, name: &str) -> (r: bool)
        requires
            self.wf(),
        ensures
            r == has_name(self@, name@),
    {
        self.position(name).is_some()
    }

    /// The entry at `i` is the one `lookup` finds by its name.
    pub proof fn lemma_unique_name(&self, i: int)
        requires
            self.wf(),
            0 <= i < self@.len(),
        ensures
            lookup(self@, self@[i].name) == Some(self@[i]),
            (choose|j: int| 0 <= j < self@.len() && #[trigger] self@[j].name == self@[i].name) == i,
    {
        let name = self@[i].name;
        assert(has_name(self@, name));
        let j = choose|j: int| 0 <= j < self@.len() && #[trigger] self@[j].name == name;
        if j != i {
            lemma_text_less_irreflexive(name);
        }
    }

    /// Removes every page.
    pub fn clear(&mut self)
        ensures
            final(self)@ == Seq::<PageView>::empty(),
            final(self).wf(),
    {
        self.list.clear();
        assert(self@ =~= Seq::<PageView>::empty());
    }

    /// Puts `page` in under its name, in place of a page of the same name.
    pub fn insert(&mut self, page: Page)
        requires
            old(self).wf(),
            in_calendar(page.time as int),
            in_calendar(page.lmod as int),
        ensures
            final(self)@ == put(old(self)@, page@),
            final(self).wf(),
    {
        let ghost s = self@;
        let ghost p = page@;
        let n = self.list.len();
        let mut k: usize = 0;
        let mut going = true;
        while going && k < n
            invariant
                n == s.len(),
                self@ == s,
                s == old(self)@,
                sorted_by_name(s),
                all_in_calendar(s),
                p == page@,
                self.list@.len() == n,
                k <= n,
                forall|i: int| 0 <= i < k ==> text_less(#[trigger] s[i].name, p.name),
                !going ==> k < n && !text_less(s[k as int].name, p.name),
            decreases n - k + (if going { 1int } else { 0int }),
        {
            assert(s[k as int].name == self.list@[k as int].name@);
            let less = text_lt(self.list[k].name.as_str(), page.name.as_str());
            if less {
                k = k + 1;
            } else {
                going = false;
            }
        }
        proof {
            assert forall|i: int| k <= i < n implies !text_less(#[trigger] s[i].name, p.name) by {
                if i > k {
                    assert(text_less(s[k as int].name, s[i].name));
                    if text_less(s[i].name, p.name) {
                        lemma_text_less_transitive(s[k as int].name, s[i].name, p.name);
                    }
                }
            }
            lemma_rank_split(s, p.name, k as int);
        }
        if k < n && crate::text::str_eq(self.list[k].name.as_str(), page.name.as_str()) {
            proof {
                self.lemma_unique_name(k as int);
            }
            self.list.set(k, page);
            proof {
                assert(self@ =~= s.update(k as int, p));
                lemma_sorted_update(s, k as int, p);
            }
        } else {
            proof {
                if has_name(s, p.name) {
                    let j = choose|j: int| 0 <= j < s.len() && #[trigger] s[j].name == p.name;
                    lemma_text_less_irreflexive(p.name);
                    if j > k {
                        lemma_text_less_total(s[k as int].name, p.name);
                        assert(text_less(s[k as int].name, s[j].name));
                    }
                }
            }
            proof {
                if k < n {
                    lemma_text_less_total(s[k as int].name, p.name);
                }
            }
            self.list.insert(k, page);
            proof {
                assert(self@ =~= s.insert(k as int, p));
                lemma_sorted_insert(s, k as int, p);
            }
        }
    }
}

} // verus!
