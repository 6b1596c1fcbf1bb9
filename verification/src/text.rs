//! Characters and strings: the model of text that the rest of the library
//! states its contracts over, and the small operations on `str` it needs.
use vstd::prelude::*;

verus! {

/// The characters that count as white space in the site's grammars: the
/// Unicode `White_Space` property.
pub open spec fn is_space(c: char) -> bool {
    ||| ('\u{9}' <= c && c <= '\u{d}')
    ||| c == ' '
    ||| c == '\u{85}'
    ||| c == '\u{a0}'
    ||| c == '\u{1680}'
    ||| ('\u{2000}' <= c && c <= '\u{200a}')
    ||| c == '\u{2028}'
    ||| c == '\u{2029}'
    ||| c == '\u{202f}'
    ||| c == '\u{205f}'
    ||| c == '\u{3000}'
}

/// Whether `c` is white space.
pub fn space(c: char) -> (r: bool)
    ensures
        r == is_space(c),
{
    ('\u{9}' <= c && c <= '\u{d}') || c == ' ' || c == '\u{85}' || c == '\u{a0}' || c
        == '\u{1680}' || ('\u{2000}' <= c && c <= '\u{200a}') || c == '\u{2028}' || c
        == '\u{2029}' || c == '\u{202f}' || c == '\u{205f}' || c == '\u{3000}'
}

/// Every character of `s` is white space.
pub open spec fn all_space(s: Seq<char>) -> bool {
    forall|i: int| 0 <= i < s.len() ==> is_space(#[trigger] s[i])
}

/// The number of bytes that the UTF-8 encoding of `c` takes.
pub open spec fn char_width(c: char) -> nat {
    if '\u{80}' > c {
        1
    } else if '\u{800}' > c {
        2
    } else if '\u{10000}' > c {
        3
    } else {
        4
    }
}

/// The number of bytes of the UTF-8 encoding of `s`: what `str::len` gives.
pub open spec fn utf8_len(s: Seq<char>) -> nat
    decreases s.len(),
{
    if s.len() == 0 {
        0
    } else {
        utf8_len(s.drop_last()) + char_width(s.last())
    }
}

/// The encoding of two texts one after the other takes the bytes of both.
pub proof fn lemma_utf8_len_concat(a: Seq<char>, b: Seq<char>)
    ensures
        utf8_len(a + b) == utf8_len(a) + utf8_len(b),
    decreases b.len(),
{
    if b.len() == 0 {
        assert(a + b =~= a);
    } else {
        lemma_utf8_len_concat(a, b.drop_last());
        assert((a + b).drop_last() =~= a + b.drop_last());
        assert((a + b).last() == b.last());
    }
}

/// The byte length of a prefix grows with the prefix.
pub proof fn lemma_utf8_len_prefix(s: Seq<char>, i: int, j: int)
    requires
        0 <= i <= j <= s.len(),
    ensures
        utf8_len(s.take(i)) + (j - i) <= utf8_len(s.take(j)),
    decreases j - i,
{
    if i < j {
        lemma_utf8_len_prefix(s, i, j - 1);
        assert(s.take(j).drop_last() =~= s.take(j - 1));
    }
}

/// `s` begins with `p`.
pub open spec fn starts_with(s: Seq<char>, p: Seq<char>) -> bool {
    p.len() <= s.len() && s.take(p.len() as int) =~= p
}

/// `s` ends with `p`.
pub open spec fn ends_with(s: Seq<char>, p: Seq<char>) -> bool {
    p.len() <= s.len() && s.skip(s.len() - p.len()) =~= p
}

/// `s` with every occurrence of the non-empty `p` removed, scanning from the
/// left and never reusing a character (what `str::replace(p, "")` gives).
pub open spec fn remove_all(s: Seq<char>, p: Seq<char>) -> Seq<char>
    recommends
        p.len() > 0,
    decreases s.len(),
{
    if s.len() == 0 || p.len() == 0 {
        s
    } else if starts_with(s, p) {
        remove_all(s.skip(p.len() as int), p)
    } else {
        seq![s[0]] + remove_all(s.skip(1), p)
    }
}

/// The decimal digit for `d < 10`.
pub open spec fn digit(d: nat) -> char {
    (('0' as u32) + d) as char
}

/// The decimal text of `n`, without leading zeros.
pub open spec fn nat_text(n: nat) -> Seq<char>
    decreases n,
{
    if n < 10 {
        seq![digit(n)]
    } else {
        nat_text(n / 10).push(digit(n % 10))
    }
}

/// The decimal text of `i`, with a minus sign when it is negative (what
/// `to_string` gives for an integer).
pub open spec fn int_text(i: int) -> Seq<char> {
    if i < 0 {
        seq!['-'] + nat_text((-i) as nat)
    } else {
        nat_text(i as nat)
    }
}

/// The texts `f(x)` of the items of `s`, one after another.
pub open spec fn concat_map<A>(s: Seq<A>, f: spec_fn(A) -> Seq<char>) -> Seq<char>
    decreases s.len(),
{
    if s.len() == 0 {
        Seq::empty()
    } else {
        concat_map(s.drop_last(), f) + f(s.last())
    }
}

/// Taking one more item of `s` appends that item's text.
pub proof fn lemma_concat_map_step<A>(s: Seq<A>, f: spec_fn(A) -> Seq<char>, i: int)
    requires
        0 <= i < s.len(),
    ensures
        concat_map(s.take(i + 1), f) == concat_map(s.take(i), f) + f(s[i]),
{
    assert(s.take(i + 1).drop_last() =~= s.take(i));
}

/// `t` stands somewhere in `s` as a run of consecutive characters.
pub open spec fn has_part(s: Seq<char>, t: Seq<char>) -> bool {
    exists|a: Seq<char>, b: Seq<char>| #[trigger] (a + t + b) == s
}

/// `t` stands in `s`, and `u` after it.
pub open spec fn in_order(s: Seq<char>, t: Seq<char>, u: Seq<char>) -> bool {
    exists|a: Seq<char>, b: Seq<char>, c: Seq<char>| #[trigger] (a + t + b + u + c) == s
}

/// A text holds what stands in its middle.
pub proof fn lemma_has_part_mid(a: Seq<char>, t: Seq<char>, b: Seq<char>)
    ensures
        has_part(a + t + b, t),
{
    assert((a + t + b) == a + t + b);
}

/// A part of a part is a part.
pub proof fn lemma_has_part_trans(s: Seq<char>, m: Seq<char>, t: Seq<char>)
    requires
        has_part(s, m),
        has_part(m, t),
    ensures
        has_part(s, t),
{
    let (a, b) = choose|a: Seq<char>, b: Seq<char>| #[trigger] (a + m + b) == s;
    let (c, d) = choose|c: Seq<char>, d: Seq<char>| #[trigger] (c + t + d) == m;
    assert(((a + c) + t + (d + b)) =~= s);
}

/// Two parts in order in a part of `s` are in order in `s`.
pub proof fn lemma_in_order_lift(s: Seq<char>, m: Seq<char>, t: Seq<char>, u: Seq<char>)
    requires
        has_part(s, m),
        in_order(m, t, u),
    ensures
        in_order(s, t, u),
{
    let (a, b) = choose|a: Seq<char>, b: Seq<char>| #[trigger] (a + m + b) == s;
    let (c, d, e) = choose|c: Seq<char>, d: Seq<char>, e: Seq<char>| #[trigger] (c + t + d + u + e) == m;
    assert(((a + c) + t + d + u + (e + b)) =~= s);
}

/// The text of each item stands in the texts of all items.
pub proof fn lemma_concat_map_part<A>(s: Seq<A>, f: spec_fn(A) -> Seq<char>, i: int)
    requires
        0 <= i < s.len(),
    ensures
        has_part(concat_map(s, f), f(s[i])),
    decreases s.len(),
{
    let d = s.drop_last();
    if i == s.len() - 1 {
        assert((concat_map(d, f) + f(s[i]) + Seq::<char>::empty()) =~= concat_map(s, f));
    } else {
        lemma_concat_map_part(d, f, i);
        assert(d[i] == s[i]);
        let (a, b) = choose|a: Seq<char>, b: Seq<char>| #[trigger] (a + f(s[i]) + b) == concat_map(d, f);
        assert((a + f(s[i]) + (b + f(s.last()))) =~= concat_map(s, f));
    }
}

/// The texts of the items stand in their order.
pub proof fn lemma_concat_map_order<A>(s: Seq<A>, f: spec_fn(A) -> Seq<char>, i: int, j: int)
    requires
        0 <= i < j < s.len(),
    ensures
        in_order(concat_map(s, f), f(s[i]), f(s[j])),
    decreases s.len(),
{
    let d = s.drop_last();
    assert(d[i] == s[i]);
    if j == s.len() - 1 {
        lemma_concat_map_part(d, f, i);
        let (a, b) = choose|a: Seq<char>, b: Seq<char>| #[trigger] (a + f(s[i]) + b) == concat_map(d, f);
        assert((a + f(s[i]) + b + f(s[j]) + Seq::<char>::empty()) =~= concat_map(s, f));
    } else {
        lemma_concat_map_order(d, f, i, j);
        assert(d[j] == s[j]);
        let (a, b, c) = choose|a: Seq<char>, b: Seq<char>, c: Seq<char>| #[trigger] (a + f(s[i]) + b + f(s[j]) + c)
            == concat_map(d, f);
        assert((a + f(s[i]) + b + f(s[j]) + (c + f(s.last()))) =~= concat_map(s, f));
    }
}

/// Whether two strings hold the same characters.
pub fn str_eq(a: &str, b: &str) -> (r: bool)
    ensures
        r == (a@ == b@),
{
    let n = a.unicode_len();
    if n != b.unicode_len() {
        return false;
    }
    let mut i: usize = 0;
    while i < n
        invariant
            n == a@.len(),
            n == b@.len(),
            i <= n,
            forall|j: int| 0 <= j < i ==> a@[j] == b@[j],
        decreases n - i,
    {
        if a.get_char(i) != b.get_char(i) {
            return false;
        }
        i = i + 1;
    }
    assert(a@ =~= b@);
    true
}

/// Whether `s` begins with `p`.
pub fn has_prefix(s: &str, p: &str) -> (r: bool)
    ensures
        r == starts_with(s@, p@),
{
    let n = p.unicode_len();
    if n > s.unicode_len() {
        return false;
    }
    let mut i: usize = 0;
    while i < n
        invariant
            n == p@.len(),
            n <= s@.len(),
            i <= n,
            forall|j: int| 0 <= j < i ==> s@[j] == p@[j],
        decreases n - i,
    {
        if s.get_char(i) != p.get_char(i) {
            assert(s@.take(n as int)[i as int] != p@[i as int]);
            return false;
        }
        i = i + 1;
    }
    assert(s@.take(n as int) =~= p@);
    true
}

/// Whether the characters of `s` from position `at` on begin with `p`.
fn has_prefix_at(s: &str, at: usize, p: &str) -> (r: bool)
    requires
        at <= s@.len(),
    ensures
        r == starts_with(s@.skip(at as int), p@),
{
    let n = p.unicode_len();
    let len = s.unicode_len();
    if n > len - at {
        return false;
    }
    let mut i: usize = 0;
    while i < n
        invariant
            n == p@.len(),
            len == s@.len(),
            at + n <= len,
            i <= n,
            forall|j: int| 0 <= j < i ==> s@[at + j] == p@[j],
        decreases n - i,
    {
        if s.get_char(at + i) != p.get_char(i) {
            assert(s@.skip(at as int).take(n as int)[i as int] != p@[i as int]);
            return false;
        }
        i = i + 1;
    }
    assert(s@.skip(at as int).take(n as int) =~= p@);
    true
}

/// A new string holding the characters of `s`.
pub fn owned(s: &str) -> (r: String)
    ensures
        r@ == s@,
{
    s.to_owned()
}

/// A new string holding the characters of `s` from `from` up to `to`.
pub fn slice(s: &str, from: usize, to: usize) -> (r: String)
    requires
        from <= to <= s@.len(),
    ensures
        r@ == s@.subrange(from as int, to as int),
{
    s.substring_char(from, to).to_owned()
}

/// `s` with every occurrence of the non-empty `p` removed (`s.replace(p, "")`).
pub fn remove_each(s: &str, p: &str) -> (r: String)
    requires
        p@.len() > 0,
    ensures
        r@ == remove_all(s@, p@),
{
    let len = s.unicode_len();
    let plen = p.unicode_len();
    let mut out = String::new();
    let mut i: usize = 0;
    assert(s@.skip(0) =~= s@);
    assert(out@ + remove_all(s@, p@) =~= remove_all(s@, p@));
    // `out` holds what the scan kept of the characters before `i`.
    while i < len
        invariant
            len == s@.len(),
            plen == p@.len(),
            plen > 0,
            i <= len,
            remove_all(s@, p@) == out@ + remove_all(s@.skip(i as int), p@),
        decreases len - i,
    {
        let ghost rest = s@.skip(i as int);
        if has_prefix_at(s, i, p) {
            assert(rest.skip(plen as int) =~= s@.skip(i + plen));
            i = i + plen;
        } else {
            let c = slice(s, i, i + 1);
            assert(c@ =~= seq![rest[0]]);
            assert(rest.skip(1) =~= s@.skip(i + 1));
            let ghost before = out@;
            out.append(c.as_str());
            assert(out@ + remove_all(s@.skip(i + 1), p@) =~= before + (seq![rest[0]] + remove_all(
                rest.skip(1),
                p@,
            )));
            i = i + 1;
        }
    }
    assert(s@.skip(len as int) =~= Seq::<char>::empty());
    assert(out@ + remove_all(Seq::<char>::empty(), p@) =~= out@);
    out
}

/// The decimal text of `n`.
pub fn nat_to_text(n: u64) -> (r: String)
    ensures
        r@ == nat_text(n as nat),
    decreases n,
{
    let digits = "0123456789";
    proof {
        reveal_strlit("0123456789");
    }
    if n < 10 {
        let d = n as usize;
        let r = slice(digits, d, d + 1);
        assert(r@ =~= seq![digit(n as nat)]);
        r
    } else {
        let mut r = nat_to_text(n / 10);
        let d = (n % 10) as usize;
        let last = slice(digits, d, d + 1);
        assert(last@ =~= seq![digit((n % 10) as nat)]);
        r.append(last.as_str());
        assert(r@ =~= nat_text(n as nat));
        r
    }
}

/// The decimal text of `i`, signed.
pub fn int_to_text(i: i64) -> (r: String)
    ensures
        r@ == int_text(i as int),
{
    if i < 0 {
        let mut r = owned("-");
        proof {
            reveal_strlit("-");
        }
        let m: u64 = if i == i64::MIN {
            9223372036854775808u64
        } else {
            (-i) as u64
        };
        let t = nat_to_text(m);
        r.append(t.as_str());
        assert(r@ =~= seq!['-'] + nat_text((-i) as nat));
        r
    } else {
        nat_to_text(i as u64)
    }
}

/// Whether the UTF-8 encoding of `s` takes more than `n` bytes
/// (`n < s.len()`).
pub fn longer_than(s: &str, n: usize) -> (r: bool)
    requires
        n < usize::MAX - 4,
    ensures
        r == (utf8_len(s@) > n),
{
    let len = s.unicode_len();
    let mut i: usize = 0;
    let mut bytes: usize = 0;
    while i < len
        invariant
            len == s@.len(),
            i <= len,
            bytes == utf8_len(s@.take(i as int)),
            bytes <= n,
            n < usize::MAX - 4,
        decreases len - i,
    {
        let c = s.get_char(i);
        let w: usize = if '\u{80}' > c {
            1
        } else if '\u{800}' > c {
            2
        } else if '\u{10000}' > c {
            3
        } else {
            4
        };
        assert(s@.take(i + 1).drop_last() =~= s@.take(i as int));
        bytes = bytes + w;
        i = i + 1;
        if bytes > n {
            proof {
                lemma_utf8_len_prefix(s@, i as int, len as int);
                assert(s@.take(len as int) =~= s@);
            }
            return true;
        }
    }
    assert(s@.take(len as int) =~= s@);
    false
}

/// The number of leading characters of `s` whose encoding takes at most `n`
/// bytes, counted greedily from the left.
pub open spec fn chars_within(s: Seq<char>, n: nat) -> nat
    decreases s.len(),
{
    if s.len() == 0 {
        0
    } else if utf8_len(s) <= n {
        s.len()
    } else {
        chars_within(s.drop_last(), n)
    }
}

/// The prefix of `s` that ends exactly `n` bytes into its encoding, where
/// that is a character boundary (`String::truncate(n)` on a longer string).
pub open spec fn byte_prefix(s: Seq<char>, n: nat) -> Option<Seq<char>> {
    let k = chars_within(s, n);
    if utf8_len(s.take(k as int)) == n {
        Some(s.take(k as int))
    } else {
        None
    }
}

proof fn lemma_chars_within(s: Seq<char>, n: nat)
    ensures
        chars_within(s, n) <= s.len(),
        utf8_len(s.take(chars_within(s, n) as int)) <= n,
        chars_within(s, n) < s.len() ==> utf8_len(s.take((chars_within(s, n) + 1) as int)) > n,
    decreases s.len(),
{
    if s.len() == 0 {
        assert(s.take(0) =~= s);
    } else if utf8_len(s) <= n {
        assert(s.take(s.len() as int) =~= s);
    } else {
        let d = s.drop_last();
        lemma_chars_within(d, n);
        let k = chars_within(d, n);
        assert(d.take(k as int) =~= s.take(k as int));
        if k < d.len() {
            assert(d.take(k + 1 as int) =~= s.take(k + 1 as int));
        } else {
            assert(s.take(k + 1 as int) =~= s);
        }
    }
}

proof fn lemma_chars_within_unique(s: Seq<char>, n: nat, k: int)
    requires
        0 <= k <= s.len(),
        utf8_len(s.take(k)) <= n,
        k < s.len() ==> utf8_len(s.take(k + 1)) > n,
    ensures
        chars_within(s, n) == k,
{
    lemma_chars_within(s, n);
    let c = chars_within(s, n) as int;
    if c < k {
        lemma_utf8_len_prefix(s, c + 1, k);
    } else if k < c {
        lemma_utf8_len_prefix(s, k + 1, c);
    }
}

/// The prefix of `s` that ends exactly `n` bytes into its encoding, or `None`
/// where byte `n` falls inside a character.
pub fn cut_at_byte(s: &str, n: usize) -> (r: Option<String>)
    requires
        n < usize::MAX - 4,
    ensures
        r matches Some(t) ==> byte_prefix(s@, n as nat) == Some(t@),
        r is None ==> byte_prefix(s@, n as nat) is None,
{
    let len = s.unicode_len();
    let mut i: usize = 0;
    let mut bytes: usize = 0;
    let mut full = false;
    while i < len && !full
        invariant
            len == s@.len(),
            i <= len,
            bytes == utf8_len(s@.take(i as int)),
            bytes <= n,
            n < usize::MAX - 4,
            full ==> i < len && utf8_len(s@.take(i + 1)) > n,
        decreases len - i + (if full { 0int } else { 1int }),
    {
        let c = s.get_char(i);
        let w: usize = if '\u{80}' > c {
            1
        } else if '\u{800}' > c {
            2
        } else if '\u{10000}' > c {
            3
        } else {
            4
        };
        assert(s@.take(i + 1).drop_last() =~= s@.take(i as int));
        if bytes + w > n {
            full = true;
        } else {
            bytes = bytes + w;
            i = i + 1;
        }
    }
    proof {
        lemma_chars_within_unique(s@, n as nat, i as int);
    }
    if bytes == n {
        Some(slice(s, 0, i))
    } else {
        None
    }
}

} // verus!
