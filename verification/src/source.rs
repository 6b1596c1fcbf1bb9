//! The grammar of a page's source file: a head of `key: value` lines, a
//! fence line of colons, and the markdown body.
use crate::text::{all_space, concat_map, digit, int_text, is_space, nat_text, owned, slice, space, str_eq};
use vstd::prelude::*;

verus! {

// ---------------------------------------------------------------------------
// runs of characters

/// How many characters at the front of `s` are white space.
pub open spec fn lead_spaces(s: Seq<char>) -> nat
    decreases s.len(),
{
    if s.len() > 0 && is_space(s[0]) {
        1 + lead_spaces(s.skip(1))
    } else {
        0
    }
}

/// May be a character of a key: neither white space nor a colon.
pub open spec fn is_key_char(c: char) -> bool {
    !is_space(c) && c != ':'
}

fn key_char(c: char) -> (r: bool)
    ensures
        r == is_key_char(c),
{
    !space(c) && c != ':'
}

/// How many characters at the front of `s` may be part of a key.
pub open spec fn lead_key(s: Seq<char>) -> nat
    decreases s.len(),
{
    if s.len() > 0 && is_key_char(s[0]) {
        1 + lead_key(s.skip(1))
    } else {
        0
    }
}

/// Joins a name's words: an underscore or a hyphen.
pub open spec fn is_joiner(c: char) -> bool {
    c == '_' || c == '-'
}

fn joiner(c: char) -> (r: bool)
    ensures
        r == is_joiner(c),
{
    c == '_' || c == '-'
}

/// How many characters at the front of `s` are joiners.
pub open spec fn lead_joiners(s: Seq<char>) -> nat
    decreases s.len(),
{
    if s.len() > 0 && is_joiner(s[0]) {
        1 + lead_joiners(s.skip(1))
    } else {
        0
    }
}

/// The position of the first joiner in `s`, if any.
pub open spec fn first_joiner(s: Seq<char>) -> Option<nat>
    decreases s.len(),
{
    if s.len() == 0 {
        None
    } else if is_joiner(s[0]) {
        Some(0)
    } else {
        match first_joiner(s.skip(1)) {
            Some(i) => Some(i + 1),
            None => None,
        }
    }
}

/// The position of the first comma in `s`, if any.
pub open spec fn first_comma(s: Seq<char>) -> Option<nat>
    decreases s.len(),
{
    if s.len() == 0 {
        None
    } else if s[0] == ',' {
        Some(0)
    } else {
        match first_comma(s.skip(1)) {
            Some(i) => Some(i + 1),
            None => None,
        }
    }
}

proof fn lemma_lead_spaces(s: Seq<char>, k: int)
    requires
        0 <= k <= s.len(),
        forall|i: int| 0 <= i < k ==> is_space(#[trigger] s[i]),
        k < s.len() ==> !is_space(s[k]),
    ensures
        lead_spaces(s) == k,
    decreases k,
{
    if k > 0 {
        lemma_lead_spaces(s.skip(1), k - 1);
    }
}

proof fn lemma_lead_key(s: Seq<char>, k: int)
    requires
        0 <= k <= s.len(),
        forall|i: int| 0 <= i < k ==> is_key_char(#[trigger] s[i]),
        k < s.len() ==> !is_key_char(s[k]),
    ensures
        lead_key(s) == k,
    decreases k,
{
    if k > 0 {
        lemma_lead_key(s.skip(1), k - 1);
    }
}

proof fn lemma_lead_joiners(s: Seq<char>, k: int)
    requires
        0 <= k <= s.len(),
        forall|i: int| 0 <= i < k ==> is_joiner(#[trigger] s[i]),
        k < s.len() ==> !is_joiner(s[k]),
    ensures
        lead_joiners(s) == k,
    decreases k,
{
    if k > 0 {
        lemma_lead_joiners(s.skip(1), k - 1);
    }
}

proof fn lemma_first_joiner(s: Seq<char>, k: int)
    requires
        0 <= k <= s.len(),
        forall|i: int| 0 <= i < k ==> !is_joiner(#[trigger] s[i]),
        k < s.len() ==> is_joiner(s[k]),
    ensures
        first_joiner(s) == (if k < s.len() {
            Some(k as nat)
        } else {
            None
        }),
    decreases k,
{
    if k > 0 {
        lemma_first_joiner(s.skip(1), k - 1);
    }
}

proof fn lemma_first_comma(s: Seq<char>, k: int)
    requires
        0 <= k <= s.len(),
        forall|i: int| 0 <= i < k ==> #[trigger] s[i] != ',',
        k < s.len() ==> s[k] == ',',
    ensures
        first_comma(s) == (if k < s.len() {
            Some(k as nat)
        } else {
            None
        }),
    decreases k,
{
    if k > 0 {
        lemma_first_comma(s.skip(1), k - 1);
    }
}

proof fn lemma_lead_spaces_bound(s: Seq<char>)
    ensures
        lead_spaces(s) <= s.len(),
        forall|i: int| 0 <= i < lead_spaces(s) ==> is_space(#[trigger] s[i]),
    decreases s.len(),
{
    if s.len() > 0 && is_space(s[0]) {
        lemma_lead_spaces_bound(s.skip(1));
        assert forall|i: int| 0 <= i < lead_spaces(s) implies is_space(#[trigger] s[i]) by {
            if i > 0 {
                assert(s[i] == s.skip(1)[i - 1]);
            }
        }
    }
}

proof fn lemma_first_comma_bound(s: Seq<char>)
    ensures
        first_comma(s) matches Some(i) ==> i < s.len(),
    decreases s.len(),
{
    if s.len() > 0 && s[0] != ',' {
        lemma_first_comma_bound(s.skip(1));
    }
}

/// The number of white-space characters in `s` from position `from` on.
fn spaces_from(s: &str, from: usize) -> (r: usize)
    requires
        from <= s@.len(),
    ensures
        from <= r <= s@.len(),
        r - from == lead_spaces(s@.skip(from as int)),
{
    let len = s.unicode_len();
    let mut i = from;
    while i < len && space(s.get_char(i))
        invariant
            len == s@.len(),
            from <= i <= len,
            forall|j: int| from <= j < i ==> is_space(#[trigger] s@[j]),
        decreases len - i,
    {
        i = i + 1;
    }
    proof {
        let t = s@.skip(from as int);
        assert forall|j: int| 0 <= j < i - from implies is_space(#[trigger] t[j]) by {
            assert(t[j] == s@[from + j]);
        }
        lemma_lead_spaces(t, i - from);
    }
    i
}

// ---------------------------------------------------------------------------
// the fence

/// Three colons in a row start at position `i` of `s`.
pub open spec fn colons_at(s: Seq<char>, i: int) -> bool {
    0 <= i && i + 2 < s.len() && s[i] == ':' && s[i + 1] == ':' && s[i + 2] == ':'
}

/// The line that ends the head (`^[:\s]*:::+[:\s]*$`): nothing but colons and
/// white space, with three colons in a row.
pub open spec fn is_fence(line: Seq<char>) -> bool {
    &&& forall|i: int| 0 <= i < line.len() ==> #[trigger] line[i] == ':' || is_space(line[i])
    &&& exists|i: int| colons_at(line, i)
}

/// Whether a line is a fence.
pub fn fence_line(line: &str) -> (r: bool)
    ensures
        r == is_fence(line@),
{
    let len = line.unicode_len();
    let mut i: usize = 0;
    let mut run: usize = 0;
    let mut three = false;
    while i < len
        invariant
            len == line@.len(),
            i <= len,
            run <= i,
            forall|j: int| 0 <= j < i ==> #[trigger] line@[j] == ':' || is_space(line@[j]),
            forall|j: int| i - run <= j < i ==> #[trigger] line@[j] == ':',
            i > run ==> line@[i - run - 1] != ':',
            three <==> exists|j: int| colons_at(line@, j) && j + 2 < i,
        decreases len - i,
    {
        let c = line.get_char(i);
        if c == ':' {
            run = run + 1;
        } else if space(c) {
            run = 0;
        } else {
            assert(!(line@[i as int] == ':' || is_space(line@[i as int])));
            return false;
        }
        proof {
            if run >= 3 {
                assert(colons_at(line@, i - 2));
            }
            if !three && run < 3 {
                assert forall|j: int| colons_at(line@, j) implies !(j + 2 < i + 1) by {
                    if j + 2 == i {
                        assert(line@[j] == ':' && line@[j + 1] == ':');
                    }
                }
            }
        }
        if run >= 3 {
            three = true;
        }
        i = i + 1;
    }
    three
}

// ---------------------------------------------------------------------------
// head fields

/// The key and value of a head line (`^\s*([^\s:]+):\s+(.*)$`): after
/// optional white space, a key of characters other than white space and
/// colons, a colon, some white space, and the value, which holds no line
/// feed.
pub open spec fn field_of(line: Seq<char>) -> Option<(Seq<char>, Seq<char>)> {
    let rest = line.skip(lead_spaces(line) as int);
    let k = lead_key(rest);
    if 0 < k < rest.len() && rest[k as int] == ':' {
        let after = rest.skip((k + 1) as int);
        let b = lead_spaces(after);
        let value = after.skip(b as int);
        if b > 0 && !value.contains('\n') {
            Some((rest.take(k as int), value))
        } else {
            None
        }
    } else {
        None
    }
}

/// The key and value of a head line, if it is one.
pub fn head_field(line: &str) -> (r: Option<(String, String)>)
    ensures
        r matches Some(kv) ==> field_of(line@) == Some((kv.0@, kv.1@)),
        r is None ==> field_of(line@) is None,
{
    let len = line.unicode_len();
    let a = spaces_from(line, 0);
    assert(line@.skip(0) =~= line@);
    let ghost rest = line@.skip(a as int);
    let mut k = a;
    while k < len && key_char(line.get_char(k))
        invariant
            len == line@.len(),
            a <= k <= len,
            rest == line@.skip(a as int),
            forall|j: int| a <= j < k ==> is_key_char(#[trigger] line@[j]),
        decreases len - k,
    {
        k = k + 1;
    }
    proof {
        assert forall|j: int| 0 <= j < k - a implies is_key_char(#[trigger] rest[j]) by {
            assert(rest[j] == line@[a + j]);
        }
        lemma_lead_key(rest, k - a);
    }
    if k == a || k >= len || line.get_char(k) != ':' {
        return None;
    }
    let b = spaces_from(line, k + 1);
    proof {
        assert(rest.skip(k - a + 1) =~= line@.skip(k + 1));
    }
    if b == k + 1 {
        return None;
    }
    let mut i = b;
    while i < len && line.get_char(i) != '\n'
        invariant
            len == line@.len(),
            b <= i <= len,
            forall|j: int| b <= j < i ==> #[trigger] line@[j] != '\n',
        decreases len - i,
    {
        i = i + 1;
    }
    if i < len {
        proof {
            let v = line@.skip(b as int);
            assert(v[i - b] == '\n');
            assert(rest.skip(k - a + 1) =~= line@.skip(k + 1));
            assert(line@.skip(k + 1).skip(b - k - 1) =~= v);
        }
        return None;
    }
    let key = slice(line, a, k);
    let value = slice(line, b, len);
    proof {
        let v = line@.skip(b as int);
        assert(rest.skip(k - a + 1).skip(b - k - 1) =~= v);
        assert(v =~= value@);
        assert(!v.contains('\n')) by {
            if v.contains('\n') {
                let j = choose|j: int| 0 <= j < v.len() && v[j] == '\n';
                assert(line@[b + j] == '\n');
            }
        }
        assert(rest.take(k - a) =~= key@);
    }
    Some((key, value))
}

// ---------------------------------------------------------------------------
// numbers

/// Every character of `s` is a decimal digit.
pub open spec fn all_digits(s: Seq<char>) -> bool {
    forall|i: int| 0 <= i < s.len() ==> '0' <= #[trigger] s[i] <= '9'
}

/// The number that the decimal digits of `s` write.
pub open spec fn digits_value(s: Seq<char>) -> nat
    decreases s.len(),
{
    if s.len() == 0 {
        0
    } else {
        digits_value(s.drop_last()) * 10 + ((s.last() as u32) - ('0' as u32)) as nat
    }
}

/// The largest magnitude an `i64` can have (that of `i64::MIN`).
pub open spec fn i64_magnitude() -> nat {
    9223372036854775808
}

/// What `str::parse::<i64>` makes of `s`: an optional sign and at least one
/// decimal digit, with the value in range.
pub open spec fn i64_of(s: Seq<char>) -> Option<int> {
    if s.len() > 0 && s[0] == '-' {
        let d = s.skip(1);
        if d.len() > 0 && all_digits(d) && digits_value(d) <= i64_magnitude() {
            Some(-(digits_value(d) as int))
        } else {
            None
        }
    } else {
        let d = if s.len() > 0 && s[0] == '+' {
            s.skip(1)
        } else {
            s
        };
        if d.len() > 0 && all_digits(d) && digits_value(d) < i64_magnitude() {
            Some(digits_value(d) as int)
        } else {
            None
        }
    }
}

proof fn lemma_digits_grow(s: Seq<char>, i: int, j: int)
    requires
        0 <= i <= j <= s.len(),
    ensures
        digits_value(s.take(i)) <= digits_value(s.take(j)),
    decreases j - i,
{
    if i < j {
        lemma_digits_grow(s, i, j - 1);
        assert(s.take(j).drop_last() =~= s.take(j - 1));
    }
}

/// The number a text is, as `str::parse::<i64>` reads it.
pub fn parse_i64(s: &str) -> (r: Option<i64>)
    ensures
        r matches Some(v) ==> i64_of(s@) == Some(v as int),
        r is None ==> i64_of(s@) is None,
{
    let len = s.unicode_len();
    let mut start: usize = 0;
    let mut negative = false;
    if len > 0 {
        let c = s.get_char(0);
        if c == '-' {
            negative = true;
            start = 1;
        } else if c == '+' {
            start = 1;
        }
    }
    let ghost d = s@.skip(start as int);
    assert(negative ==> s@[0] == '-');
    assert(!negative && start == 1 ==> s@[0] == '+');
    assert(start == 0 ==> (len == 0 || (s@[0] != '-' && s@[0] != '+')));
    assert(s@.skip(0) =~= s@);
    if start == len {
        return None;
    }
    let mut v: u128 = 0;
    let mut i = start;
    while i < len
        invariant
            len == s@.len(),
            start <= i <= len,
            d == s@.skip(start as int),
            v == digits_value(d.take(i - start)),
            v <= i64_magnitude(),
            forall|j: int| 0 <= j < i - start ==> '0' <= #[trigger] d[j] <= '9',
            negative ==> s@[0] == '-' && start == 1,
            !negative && start == 1 ==> s@[0] == '+',
            start == 0 ==> (len == 0 || (s@[0] != '-' && s@[0] != '+')),
            start <= 1,
        decreases len - i,
    {
        let c = s.get_char(i);
        if c < '0' || c > '9' {
            assert(!('0' <= d[i - start] <= '9'));
            return None;
        }
        assert(d.take(i - start + 1).drop_last() =~= d.take(i - start));
        assert(d.take(i - start + 1).last() == c);
        v = v * 10 + ((c as u32) - ('0' as u32)) as u128;
        i = i + 1;
        assert(v == digits_value(d.take(i - start)));
        if v > 9223372036854775808u128 {
            proof {
                lemma_digits_grow(d, i - start, d.len() as int);
                assert(d.take(d.len() as int) =~= d);
                assert(s@.skip(0) =~= s@);
            }
            return None;
        }
    }
    assert(d.take(d.len() as int) =~= d);
    assert(all_digits(d));
    if negative {
        if v == 9223372036854775808u128 {
            Some(i64::MIN)
        } else {
            Some(-(v as i64))
        }
    } else if v == 9223372036854775808u128 {
        None
    } else {
        Some(v as i64)
    }
}

// ---------------------------------------------------------------------------
// lists

/// A comma-separated list (split at `,\s*`): the text up to the first comma,
/// then the list after it and the white space that follows it. An empty text
/// is a list of one empty item.
pub open spec fn list_of(s: Seq<char>) -> Seq<Seq<char>>
    decreases s.len(),
{
    match first_comma(s) {
        Some(i) => {
            let rest = s.skip((i + 1) as int);
            if i < s.len() && lead_spaces(rest) <= rest.len() {
                seq![s.take(i as int)] + list_of(rest.skip(lead_spaces(rest) as int))
            } else {
                seq![s]
            }
        },
        None => seq![s],
    }
}

/// A list value split at its commas.
pub fn split_list(s: &str) -> (r: Vec<String>)
    ensures
        r.deep_view() == list_of(s@),
{
    let len = s.unicode_len();
    let mut out: Vec<String> = Vec::new();
    let mut start: usize = 0;
    assert(s@.skip(0) =~= s@);
    loop
        invariant
            len == s@.len(),
            start <= len,
            list_of(s@) == out.deep_view() + list_of(s@.skip(start as int)),
        decreases len - start,
    {
        let ghost t = s@.skip(start as int);
        let mut j = start;
        while j < len && s.get_char(j) != ','
            invariant
                len == s@.len(),
                start <= j <= len,
                t == s@.skip(start as int),
                forall|i: int| start <= i < j ==> #[trigger] s@[i] != ',',
            decreases len - j,
        {
            j = j + 1;
        }
        proof {
            assert forall|i: int| 0 <= i < j - start implies #[trigger] t[i] != ',' by {
                assert(t[i] == s@[start + i]);
            }
            lemma_first_comma(t, j - start);
        }
        if j == len {
            let last = slice(s, start, len);
            assert(last@ =~= t);
            let ghost before = out.deep_view();
            out.push(last);
            assert(out.deep_view() =~= before + seq![t]);
            return out;
        }
        let piece = slice(s, start, j);
        assert(piece@ =~= t.take(j - start));
        let ghost before = out.deep_view();
        out.push(piece);
        assert(out.deep_view() =~= before + seq![t.take(j - start)]);
        let k = spaces_from(s, j + 1);
        proof {
            let rest = t.skip(j - start + 1);
            assert(rest =~= s@.skip(j + 1));
            lemma_lead_spaces_bound(rest);
            assert(rest.skip(k - j - 1) =~= s@.skip(k as int));
            assert(list_of(t) =~= seq![t.take(j - start)] + list_of(s@.skip(k as int)));
            assert(t.take(j - start) =~= piece@);
        }
        start = k;
    }
}

// ---------------------------------------------------------------------------
// titles

/// The default title of a page: its name with the first run of underscores
/// and hyphens made a single space (`Regex::replace` of `[_-]+`).
pub open spec fn name_title(name: Seq<char>) -> Seq<char> {
    match first_joiner(name) {
        Some(i) => name.take(i as int) + seq![' '] + name.skip((i + lead_joiners(name.skip(i as int))) as int),
        None => name,
    }
}

/// The title a page has by its name.
pub fn title_of_name(name: &str) -> (r: String)
    ensures
        r@ == name_title(name@),
{
    let len = name.unicode_len();
    let mut i: usize = 0;
    while i < len && !joiner(name.get_char(i))
        invariant
            len == name@.len(),
            i <= len,
            forall|j: int| 0 <= j < i ==> !is_joiner(#[trigger] name@[j]),
        decreases len - i,
    {
        i = i + 1;
    }
    proof {
        lemma_first_joiner(name@, i as int);
    }
    if i == len {
        return owned(name);
    }
    let mut j = i;
    while j < len && joiner(name.get_char(j))
        invariant
            len == name@.len(),
            i <= j <= len,
            forall|k: int| i <= k < j ==> is_joiner(#[trigger] name@[k]),
        decreases len - j,
    {
        j = j + 1;
    }
    proof {
        let t = name@.skip(i as int);
        assert forall|k: int| 0 <= k < j - i implies is_joiner(#[trigger] t[k]) by {
            assert(t[k] == name@[i + k]);
        }
        lemma_lead_joiners(t, j - i);
    }
    let mut r = slice(name, 0, i);
    r.append(" ");
    let tail = slice(name, j, len);
    r.append(tail.as_str());
    proof {
        reveal_strlit(" ");
        assert(name@.skip(j as int) =~= tail@);
        assert(r@ =~= name_title(name@));
    }
    r
}

// ---------------------------------------------------------------------------
// the whole source

/// What the reading of a source has gathered so far.
pub struct ScanView {
    /// The fence has been seen: the lines that follow are body.
    pub body: bool,
    /// Every time value so far was a number (the site stops on one that is
    /// not).
    pub fine: bool,
    pub title: Seq<char>,
    pub time: int,
    pub tags: Seq<Seq<char>>,
    pub scripts: Seq<Seq<char>>,
    pub md: Seq<char>,
}

/// The reading of one line. Fence lines are dropped wherever they stand; head
/// lines set the title, the time, the tags or the scripts; body lines are
/// kept, each with a line feed.
pub open spec fn scan_line(st: ScanView, line: Seq<char>) -> ScanView {
    if !st.fine {
        st
    } else if is_fence(line) {
        ScanView { body: true, ..st }
    } else if !st.body {
        if line.len() == 0 {
            st
        } else {
            match field_of(line) {
                Some(kv) => {
                    if kv.0 == "title"@ {
                        ScanView { title: kv.1, ..st }
                    } else if kv.0 == "time"@ {
                        match i64_of(kv.1) {
                            Some(t) => ScanView { time: t, ..st },
                            None => ScanView { fine: false, ..st },
                        }
                    } else if kv.0 == "tag"@ {
                        ScanView { tags: list_of(kv.1), ..st }
                    } else if kv.0 == "script"@ {
                        ScanView { scripts: list_of(kv.1), ..st }
                    } else {
                        st
                    }
                },
                None => st,
            }
        }
    } else {
        ScanView { md: st.md + line + "\n"@, ..st }
    }
}

/// The reading of the lines in order.
pub open spec fn scan_lines(start: ScanView, lines: Seq<Seq<char>>) -> ScanView
    decreases lines.len(),
{
    if lines.len() == 0 {
        start
    } else {
        scan_line(scan_lines(start, lines.drop_last()), lines.last())
    }
}

/// Where the reading of a page named `name` starts.
pub open spec fn scan_start(name: Seq<char>) -> ScanView {
    ScanView {
        body: false,
        fine: true,
        title: name_title(name),
        time: 0,
        tags: Seq::empty(),
        scripts: Seq::empty(),
        md: Seq::empty(),
    }
}

/// The title, time, tags, scripts and markdown read from a source.
pub struct PageText {
    pub title: String,
    pub time: i64,
    pub tags: Vec<String>,
    pub scripts: Vec<String>,
    pub md: String,
}

/// What a reading gave, over plain values.
pub open spec fn text_matches(t: PageText, st: ScanView) -> bool {
    &&& t.title@ == st.title
    &&& t.time as int == st.time
    &&& t.tags.deep_view() == st.tags
    &&& t.scripts.deep_view() == st.scripts
    &&& t.md@ == st.md
}

/// Reads the lines of the source of a page named `name`: `None` where a time
/// value is not a number (there the site stops).
pub fn read_lines(name: &str, lines: &Vec<String>) -> (r: Option<PageText>)
    ensures
        r is Some <==> scan_lines(scan_start(name@), lines.deep_view()).fine,
        r matches Some(t) ==> text_matches(t, scan_lines(scan_start(name@), lines.deep_view())),
{
    let ghost ls = lines.deep_view();
    let ghost st0 = scan_start(name@);
    let mut t = PageText {
        title: title_of_name(name),
        time: 0,
        tags: Vec::new(),
        scripts: Vec::new(),
        md: String::new(),
    };
    let mut body = false;
    let mut i: usize = 0;
    assert(t.tags.deep_view() =~= Seq::<Seq<char>>::empty());
    assert(t.scripts.deep_view() =~= Seq::<Seq<char>>::empty());
    assert(ls.take(0) =~= Seq::<Seq<char>>::empty());
    while i < lines.len()
        invariant
            ls == lines.deep_view(),
            st0 == scan_start(name@),
            i <= lines.len(),
            scan_lines(st0, ls.take(i as int)).fine,
            scan_lines(st0, ls.take(i as int)).body == body,
            text_matches(t, scan_lines(st0, ls.take(i as int))),
        decreases lines.len() - i,
    {
        let ghost st = scan_lines(st0, ls.take(i as int));
        assert(ls.take(i + 1).drop_last() =~= ls.take(i as int));
        assert(ls.take(i + 1).last() == lines[i as int]@);
        let line = lines[i].as_str();
        if fence_line(line) {
            body = true;
        } else if !body {
            if line.is_empty() {
            } else {
                match head_field(line) {
                    Some(kv) => {
                        let (key, value) = kv;
                        if str_eq(key.as_str(), "title") {
                            t.title = value;
                        } else if str_eq(key.as_str(), "time") {
                            match parse_i64(value.as_str()) {
                                Some(v) => {
                                    t.time = v;
                                },
                                None => {
                                    proof {
                                        lemma_scan_stays_failed(st0, ls, i as int + 1);
                                        assert(ls.take(ls.len() as int) =~= ls);
                                    }
                                    return None;
                                },
                            }
                        } else if str_eq(key.as_str(), "tag") {
                            t.tags = split_list(value.as_str());
                        } else if str_eq(key.as_str(), "script") {
                            t.scripts = split_list(value.as_str());
                        }
                    },
                    None => {},
                }
            }
        } else {
            t.md.append(line);
            t.md.append("\n");
        }
        i = i + 1;
    }
    assert(ls.take(lines.len() as int) =~= ls);
    Some(t)
}

/// Once a reading has failed it stays failed.
proof fn lemma_scan_stays_failed(start: ScanView, ls: Seq<Seq<char>>, i: int)
    requires
        0 <= i <= ls.len(),
        !scan_lines(start, ls.take(i)).fine,
    ensures
        !scan_lines(start, ls).fine,
    decreases ls.len() - i,
{
    if i < ls.len() {
        assert(ls.take(i + 1).drop_last() =~= ls.take(i));
        lemma_scan_stays_failed(start, ls, i + 1);
    } else {
        assert(ls.take(i) =~= ls);
    }
}

// ---------------------------------------------------------------------------
// laws

proof fn lemma_nat_text(n: nat)
    ensures
        nat_text(n).len() > 0,
        all_digits(nat_text(n)),
        digits_value(nat_text(n)) == n,
    decreases n,
{
    let d = n % 10;
    assert((digit(d) as u32) == ('0' as u32) + d);
    if n >= 10 {
        lemma_nat_text(n / 10);
        let s = nat_text(n / 10);
        let t = s.push(digit(d));
        assert(t.drop_last() =~= s);
        assert(t.last() == digit(d));
        assert(digits_value(t) == digits_value(s) * 10 + d);
        assert((n / 10) * 10 + n % 10 == n) by (nonlinear_arith);
        assert forall|i: int| 0 <= i < t.len() implies '0' <= #[trigger] t[i] <= '9' by {
            if i < s.len() {
                assert(t[i] == s[i]);
            }
        }
    } else {
        let t = nat_text(n);
        assert(t.drop_last() =~= Seq::<char>::empty());
        assert(n % 10 == n);
        assert(t.last() == digit(d));
        assert(digits_value(t) == digits_value(Seq::<char>::empty()) * 10 + d);
    }
}

/// A time written in decimal is read back as itself: `str::parse` of
/// `to_string` gives the number.
pub proof fn law_time_round_trip(v: i64)
    ensures
        i64_of(int_text(v as int)) == Some(v as int),
{
    if v < 0 {
        let m = (-v) as nat;
        lemma_nat_text(m);
        let s = int_text(v as int);
        assert(s.skip(1) =~= nat_text(m));
    } else {
        lemma_nat_text(v as nat);
        let s = nat_text(v as nat);
        assert(s[0] != '-' && s[0] != '+');
    }
}

/// Once the fence has been read, each further line that is not a fence goes
/// into the markdown as it stands, followed by a line feed; nothing else
/// about the reading changes.
pub proof fn law_body_line_verbatim(start: ScanView, lines: Seq<Seq<char>>, line: Seq<char>)
    requires
        scan_lines(start, lines).body,
        scan_lines(start, lines).fine,
        !is_fence(line),
    ensures
        scan_lines(start, lines.push(line)).md == scan_lines(start, lines).md + line + "\n"@,
        scan_lines(start, lines.push(line)).body,
        scan_lines(start, lines.push(line)).fine,
        scan_lines(start, lines.push(line)).title == scan_lines(start, lines).title,
        scan_lines(start, lines.push(line)).time == scan_lines(start, lines).time,
        scan_lines(start, lines.push(line)).tags == scan_lines(start, lines).tags,
        scan_lines(start, lines.push(line)).scripts == scan_lines(start, lines).scripts,
{
    assert(lines.push(line).drop_last() =~= lines);
}

/// The body of a source is its lines after the fence, word for word: once
/// the fence has been read, the markdown grows by each following line and a
/// line feed, in order, when none of those lines is a fence.
pub proof fn law_body_verbatim(start: ScanView, head: Seq<Seq<char>>, body: Seq<Seq<char>>)
    requires
        scan_lines(start, head).body,
        scan_lines(start, head).fine,
        forall|i: int| 0 <= i < body.len() ==> !is_fence(#[trigger] body[i]),
    ensures
        scan_lines(start, head + body).md == scan_lines(start, head).md + concat_map(
            body,
            |l: Seq<char>| l + "\n"@,
        ),
        scan_lines(start, head + body).body,
        scan_lines(start, head + body).fine,
    decreases body.len(),
{
    if body.len() == 0 {
        assert(head + body =~= head);
    } else {
        let d = body.drop_last();
        assert forall|i: int| 0 <= i < d.len() implies !is_fence(#[trigger] d[i]) by {
            assert(d[i] == body[i]);
        }
        law_body_verbatim(start, head, d);
        assert(!is_fence(body[body.len() - 1]));
        law_body_line_verbatim(start, head + d, body.last());
        assert((head + d).push(body.last()) =~= head + body);
        let f = |l: Seq<char>| l + "\n"@;
        assert(concat_map(body, f) == concat_map(d, f) + f(body.last()));
        assert(scan_lines(start, head).md + concat_map(d, f) + (body.last() + "\n"@) =~= scan_lines(
            start,
            head,
        ).md + concat_map(body, f));
    }
}

/// Without a fence line, nothing of a source is body: the markdown stays
/// empty.
pub proof fn law_no_fence_no_body(name: Seq<char>, lines: Seq<Seq<char>>)
    requires
        forall|i: int| 0 <= i < lines.len() ==> !is_fence(#[trigger] lines[i]),
    ensures
        !scan_lines(scan_start(name), lines).body,
        scan_lines(scan_start(name), lines).md == Seq::<char>::empty(),
    decreases lines.len(),
{
    if lines.len() > 0 {
        let d = lines.drop_last();
        assert forall|i: int| 0 <= i < d.len() implies !is_fence(#[trigger] d[i]) by {
            assert(d[i] == lines[i]);
        }
        law_no_fence_no_body(name, d);
        assert(!is_fence(lines[lines.len() - 1]));
    }
}

} // verus!
