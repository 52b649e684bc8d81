//! Character-level building blocks shared by the URI, header and request
//! code: conversions between `&str`, `String` and `Vec<char>`, searching,
//! splitting, trimming, decimal numbers and lexicographic order.
use vstd::prelude::*;

verus! {

// ---------------------------------------------------------------------
// Character classes
// ---------------------------------------------------------------------

/// A character that UTF-8 encodes in a single byte.
pub open spec fn is_ascii_char(c: char) -> bool {
    (c as u32) < 128
}

/// `u8::is_ascii_whitespace`: space, tab, line feed, form feed, carriage return.
pub open spec fn is_ascii_ws(c: char) -> bool {
    c == ' ' || c == '\t' || c == '\n' || c == '\x0C' || c == '\r'
}

/// `char::is_whitespace`: the characters with the Unicode `White_Space` property.
pub open spec fn is_unicode_ws(c: char) -> bool {
    let u = c as u32;
    ||| 0x09 <= u <= 0x0D
    ||| u == 0x20
    ||| u == 0x85
    ||| u == 0xA0
    ||| u == 0x1680
    ||| 0x2000 <= u <= 0x200A
    ||| u == 0x2028
    ||| u == 0x2029
    ||| u == 0x202F
    ||| u == 0x205F
    ||| u == 0x3000
}

/// Whitespace of the given kind: Unicode `White_Space` when `unicode`,
/// ASCII whitespace otherwise.
pub open spec fn is_ws(c: char, unicode: bool) -> bool {
    if unicode {
        is_unicode_ws(c)
    } else {
        is_ascii_ws(c)
    }
}

pub fn ascii_ws(c: char) -> (r: bool)
    ensures
        r == is_ascii_ws(c),
{
    c == ' ' || c == '\t' || c == '\n' || c == '\x0C' || c == '\r'
}

pub fn unicode_ws(c: char) -> (r: bool)
    ensures
        r == is_unicode_ws(c),
{
    let u = c as u32;
    (0x09 <= u && u <= 0x0D) || u == 0x20 || u == 0x85 || u == 0xA0 || u == 0x1680 || (0x2000
        <= u && u <= 0x200A) || u == 0x2028 || u == 0x2029 || u == 0x202F || u == 0x205F || u
        == 0x3000
}

pub fn whitespace(c: char, unicode: bool) -> (r: bool)
    ensures
        r == is_ws(c, unicode),
{
    if unicode {
        unicode_ws(c)
    } else {
        ascii_ws(c)
    }
}

pub open spec fn is_ascii_digit(c: char) -> bool {
    '0' <= c && c <= '9'
}

pub open spec fn ascii_upper_char(c: char) -> char {
    if 'a' <= c && c <= 'z' {
        ((c as u32) - 32) as char
    } else {
        c
    }
}

pub open spec fn ascii_lower_char(c: char) -> char {
    if 'A' <= c && c <= 'Z' {
        ((c as u32) + 32) as char
    } else {
        c
    }
}

/// Every character of `s` lower-cased by the ASCII rule.
pub open spec fn ascii_lower(s: Seq<char>) -> Seq<char> {
    s.map_values(|c: char| ascii_lower_char(c))
}

pub open spec fn all_ascii(s: Seq<char>) -> bool {
    forall|i: int| 0 <= i < s.len() ==> is_ascii_char(#[trigger] s[i])
}

pub fn ascii_upper(c: char) -> (r: char)
    ensures
        r == ascii_upper_char(c),
{
    if 'a' <= c && c <= 'z' {
        let b: u8 = c as u8;
        (b - 32) as char
    } else {
        c
    }
}

// ---------------------------------------------------------------------
// Conversions
// ---------------------------------------------------------------------

/// A vector of characters is seen through its deep view as its plain view.
pub broadcast proof fn lemma_char_vec_deep_view(v: Vec<char>)
    ensures
        #[trigger] v.deep_view() == v@,
{
    assert(v.deep_view() =~= v@);
}

/// Appends one character (`String::push`).
#[verifier::external_body]
pub(crate) fn push_char(s: &mut String, c: char)
    ensures
        final(s)@ == old(s)@.push(c),
{
    s.push(c)
}

/// The characters of a string slice.
pub fn chars_of(s: &str) -> (r: Vec<char>)
    ensures
        r@ == s@,
{
    let mut v: Vec<char> = Vec::new();
    for c in it: s.chars()
        invariant
            it.seq() == s@,
            v@ == it.seq().take(it.index() as int),
    {
        v.push(c);
    }
    assert(v@ =~= s@);
    v
}

/// The characters `v[lo..hi]` as a new vector.
pub fn sub_chars(v: &Vec<char>, lo: usize, hi: usize) -> (r: Vec<char>)
    requires
        lo <= hi <= v@.len(),
    ensures
        r@ == v@.subrange(lo as int, hi as int),
{
    let mut r: Vec<char> = Vec::new();
    let mut i = lo;
    while i < hi
        invariant
            lo <= i <= hi <= v@.len(),
            r@ == v@.subrange(lo as int, i as int),
        decreases hi - i,
    {
        r.push(v[i]);
        i += 1;
        assert(r@ =~= v@.subrange(lo as int, i as int));
    }
    r
}

/// Appends the characters `v[lo..hi]` to `s`.
pub fn push_range(s: &mut String, v: &Vec<char>, lo: usize, hi: usize)
    requires
        lo <= hi <= v@.len(),
    ensures
        final(s)@ == old(s)@ + v@.subrange(lo as int, hi as int),
{
    let mut i = lo;
    while i < hi
        invariant
            lo <= i <= hi <= v@.len(),
            s@ == old(s)@ + v@.subrange(lo as int, i as int),
        decreases hi - i,
    {
        push_char(s, v[i]);
        i += 1;
        assert(s@ =~= old(s)@ + v@.subrange(lo as int, i as int));
    }
}

/// Appends all characters of `v` to `s`.
pub fn push_all(s: &mut String, v: &Vec<char>)
    ensures
        final(s)@ == old(s)@ + v@,
{
    push_range(s, v, 0, v.len());
    assert(v@.subrange(0, v@.len() as int) =~= v@);
}

/// Appends the characters of a string slice to `s`.
pub fn push_str(s: &mut String, t: &str)
    ensures
        final(s)@ == old(s)@ + t@,
{
    let v = chars_of(t);
    push_all(s, &v);
}

/// The string whose characters are `v[lo..hi]`.
pub fn string_of_range(v: &Vec<char>, lo: usize, hi: usize) -> (r: String)
    requires
        lo <= hi <= v@.len(),
    ensures
        r@ == v@.subrange(lo as int, hi as int),
{
    let mut s = String::new();
    push_range(&mut s, v, lo, hi);
    assert(s@ =~= v@.subrange(lo as int, hi as int));
    s
}

/// The string whose characters are `v`.
pub fn string_of(v: &Vec<char>) -> (r: String)
    ensures
        r@ == v@,
{
    let s = string_of_range(v, 0, v.len());
    assert(v@.subrange(0, v@.len() as int) =~= v@);
    s
}

/// Whether two character vectors are equal.
pub fn chars_eq(a: &Vec<char>, b: &Vec<char>) -> (r: bool)
    ensures
        r == (a@ == b@),
{
    if a.len() != b.len() {
        return false;
    }
    let mut i: usize = 0;
    while i < a.len()
        invariant
            a@.len() == b@.len(),
            i <= a@.len(),
            forall|j: int| 0 <= j < i ==> a@[j] == b@[j],
        decreases a.len() - i,
    {
        if a[i] != b[i] {
            return false;
        }
        i += 1;
    }
    assert(a@ =~= b@);
    true
}

/// The UTF-8 bytes of a string (`str::as_bytes`, copied out).
pub fn utf8_bytes(s: &str) -> (r: Vec<u8>)
    ensures
        r@ == vstd::utf8::encode_utf8(s@),
{
    let b = s.as_bytes();
    let mut r: Vec<u8> = Vec::new();
    let mut i: usize = 0;
    while i < b.len()
        invariant
            i <= b@.len(),
            b@ == vstd::utf8::encode_utf8(s@),
            r@ == b@.take(i as int),
        decreases b.len() - i,
    {
        r.push(b[i]);
        i += 1;
        assert(r@ =~= b@.take(i as int));
    }
    assert(r@ =~= b@);
    r
}

// ---------------------------------------------------------------------
// Searching
// ---------------------------------------------------------------------

/// The index of the first occurrence of `c` in `s` (`str::find` with a char).
pub open spec fn find_char(s: Seq<char>, c: char) -> Option<int>
    decreases s.len(),
{
    if s.len() == 0 {
        None
    } else if s[0] == c {
        Some(0)
    } else {
        match find_char(s.drop_first(), c) {
            Some(i) => Some(i + 1),
            None => None,
        }
    }
}

/// `find_char` is the first index holding `c`, or `None` when there is none.
pub proof fn lemma_find_char(s: Seq<char>, c: char)
    ensures
        match find_char(s, c) {
            Some(i) => 0 <= i < s.len() && s[i] == c && forall|j: int| 0 <= j < i ==> s[j] != c,
            None => forall|j: int| 0 <= j < s.len() ==> s[j] != c,
        },
    decreases s.len(),
{
    if s.len() > 0 && s[0] != c {
        lemma_find_char(s.drop_first(), c);
        match find_char(s.drop_first(), c) {
            Some(i) => {
                assert forall|j: int| 0 <= j < i + 1 implies s[j] != c by {
                    if j > 0 {
                        assert(s[j] == s.drop_first()[j - 1]);
                    }
                }
            },
            None => {
                assert forall|j: int| 0 <= j < s.len() implies s[j] != c by {
                    if j > 0 {
                        assert(s[j] == s.drop_first()[j - 1]);
                    }
                }
            },
        }
    }
}

/// A first occurrence determines `find_char`.
pub proof fn lemma_find_char_at(s: Seq<char>, c: char, i: int)
    requires
        0 <= i <= s.len(),
        forall|j: int| 0 <= j < i ==> s[j] != c,
        i < s.len() ==> s[i] == c,
    ensures
        find_char(s, c) == (if i < s.len() {
            Some(i)
        } else {
            None::<int>
        }),
{
    lemma_find_char(s, c);
    match find_char(s, c) {
        Some(k) => {
            if k < i {
                assert(s[k] != c);
            }
            if i < k {
                assert(s[i] != c);
            }
        },
        None => {
            if i < s.len() {
                assert(s[i] != c);
            }
        },
    }
}

/// The first index of `c` in `v`.
pub fn find(v: &Vec<char>, c: char) -> (r: Option<usize>)
    ensures
        match r {
            Some(i) => i < v@.len() && v@[i as int] == c && find_char(v@, c) == Some(i as int),
            None => find_char(v@, c) == None::<int>,
        },
{
    let mut i: usize = 0;
    while i < v.len()
        invariant
            i <= v@.len(),
            forall|j: int| 0 <= j < i ==> v@[j] != c,
        decreases v.len() - i,
    {
        if v[i] == c {
            proof {
                lemma_find_char_at(v@, c, i as int);
            }
            return Some(i);
        }
        i += 1;
    }
    proof {
        lemma_find_char_at(v@, c, i as int);
    }
    None
}

/// `str::split_once` with a char separator.
pub open spec fn split_once(s: Seq<char>, c: char) -> Option<(Seq<char>, Seq<char>)> {
    match find_char(s, c) {
        Some(i) => Some((s.take(i), s.skip(i + 1))),
        None => None,
    }
}

pub open spec fn starts_with(s: Seq<char>, c: char) -> bool {
    s.len() > 0 && s[0] == c
}

// ---------------------------------------------------------------------
// Splitting, joining, trimming
// ---------------------------------------------------------------------

/// Left-to-right scan of `str::split(sep)`: the pieces closed so far and the open piece.
pub open spec fn split_scan(s: Seq<char>, sep: char) -> (Seq<Seq<char>>, Seq<char>)
    decreases s.len(),
{
    if s.len() == 0 {
        (seq![], seq![])
    } else {
        let (ps, cur) = split_scan(s.drop_last(), sep);
        if s.last() == sep {
            (ps.push(cur), seq![])
        } else {
            (ps, cur.push(s.last()))
        }
    }
}

/// The pieces of `s` between occurrences of `sep`, empty pieces included (`str::split`).
pub open spec fn split_on(s: Seq<char>, sep: char) -> Seq<Seq<char>> {
    split_scan(s, sep).0.push(split_scan(s, sep).1)
}

/// Left-to-right scan for whitespace-separated words: the words closed so far and the open word.
pub open spec fn word_scan(s: Seq<char>, unicode: bool) -> (Seq<Seq<char>>, Seq<char>)
    decreases s.len(),
{
    if s.len() == 0 {
        (seq![], seq![])
    } else {
        let (ws, cur) = word_scan(s.drop_last(), unicode);
        if is_ws(s.last(), unicode) {
            if cur.len() > 0 {
                (ws.push(cur), seq![])
            } else {
                (ws, seq![])
            }
        } else {
            (ws, cur.push(s.last()))
        }
    }
}

/// The maximal runs of non-whitespace characters of `s`
/// (`str::split_whitespace` when `unicode`, `str::split_ascii_whitespace` otherwise).
pub open spec fn words(s: Seq<char>, unicode: bool) -> Seq<Seq<char>> {
    let (ws, cur) = word_scan(s, unicode);
    if cur.len() > 0 {
        ws.push(cur)
    } else {
        ws
    }
}

proof fn lemma_deep_view_push(old_v: Vec<Vec<char>>, new_v: Vec<Vec<char>>, x: Vec<char>)
    requires
        new_v@ == old_v@.push(x),
    ensures
        new_v.deep_view() == old_v.deep_view().push(x@),
{
    assert(x.deep_view() =~= x@);
    assert(new_v.deep_view() =~= old_v.deep_view().push(x@));
}

/// The pieces of `v` between occurrences of `sep`.
pub fn split_chars(v: &Vec<char>, sep: char) -> (r: Vec<Vec<char>>)
    ensures
        r.deep_view() == split_on(v@, sep),
{
    let mut ps: Vec<Vec<char>> = Vec::new();
    let mut cur: Vec<char> = Vec::new();
    let mut i: usize = 0;
    while i < v.len()
        invariant
            i <= v@.len(),
            (ps.deep_view(), cur@) == split_scan(v@.take(i as int), sep),
        decreases v.len() - i,
    {
        let c = v[i];
        proof {
            assert(v@.take(i + 1).drop_last() =~= v@.take(i as int));
        }
        if c == sep {
            let done = cur;
            let ghost old_ps = ps;
            ps.push(done);
            proof {
                lemma_deep_view_push(old_ps, ps, done);
            }
            cur = Vec::new();
            assert(cur@ =~= Seq::<char>::empty());
        } else {
            cur.push(c);
        }
        i += 1;
    }
    assert(v@.take(v@.len() as int) =~= v@);
    let last = cur;
    let ghost old_ps = ps;
    ps.push(last);
    proof {
        lemma_deep_view_push(old_ps, ps, last);
    }
    ps
}

/// The whitespace-separated words of `v`.
pub fn words_of(v: &Vec<char>, unicode: bool) -> (r: Vec<Vec<char>>)
    ensures
        r.deep_view() == words(v@, unicode),
{
    let mut ws: Vec<Vec<char>> = Vec::new();
    let mut cur: Vec<char> = Vec::new();
    let mut i: usize = 0;
    while i < v.len()
        invariant
            i <= v@.len(),
            (ws.deep_view(), cur@) == word_scan(v@.take(i as int), unicode),
        decreases v.len() - i,
    {
        let c = v[i];
        proof {
            assert(v@.take(i + 1).drop_last() =~= v@.take(i as int));
        }
        if whitespace(c, unicode) {
            if cur.len() > 0 {
                let done = cur;
                let ghost old_ws = ws;
                ws.push(done);
                proof {
                    lemma_deep_view_push(old_ws, ws, done);
                }
            }
            cur = Vec::new();
            assert(cur@ =~= Seq::<char>::empty());
        } else {
            cur.push(c);
        }
        i += 1;
    }
    assert(v@.take(v@.len() as int) =~= v@);
    if cur.len() > 0 {
        let last = cur;
        let ghost old_ws = ws;
        ws.push(last);
        proof {
            lemma_deep_view_push(old_ws, ws, last);
        }
    }
    ws
}

/// The items joined by `sep`, with `sep` between neighbours only.
pub open spec fn join(items: Seq<Seq<char>>, sep: Seq<char>) -> Seq<char>
    decreases items.len(),
{
    if items.len() == 0 {
        seq![]
    } else if items.len() == 1 {
        items[0]
    } else {
        join(items.drop_last(), sep) + sep + items.last()
    }
}

/// Joining one more item.
pub proof fn lemma_join_push(items: Seq<Seq<char>>, sep: Seq<char>, x: Seq<char>)
    ensures
        join(items.push(x), sep) == if items.len() == 0 {
            x
        } else {
            join(items, sep) + sep + x
        },
{
    assert(items.push(x).drop_last() =~= items);
}

/// The pieces of a split, joined again by the separator, give back the text.
pub proof fn lemma_split_join(s: Seq<char>, sep: char)
    ensures
        join(split_on(s, sep), seq![sep]) == s,
    decreases s.len(),
{
    if s.len() > 0 {
        let t = s.drop_last();
        lemma_split_join(t, sep);
        let (ps, cur) = split_scan(t, sep);
        if s.last() == sep {
            lemma_join_push(ps.push(cur), seq![sep], seq![]);
            assert(s =~= t + seq![sep] + Seq::<char>::empty());
        } else {
            lemma_join_push(ps, seq![sep], cur);
            lemma_join_push(ps, seq![sep], cur.push(s.last()));
            assert(s =~= t.push(s.last()));
            if ps.len() > 0 {
                assert(join(ps, seq![sep]) + seq![sep] + cur.push(s.last()) =~= (join(ps, seq![sep])
                    + seq![sep] + cur).push(s.last()));
            }
        }
    } else {
        assert(split_on(s, sep) =~= seq![Seq::<char>::empty()]);
    }
}

/// Text in which `c` does not occur.
pub open spec fn lacks(x: Seq<char>, c: char) -> bool {
    forall|j: int| 0 <= j < x.len() ==> x[j] != c
}

/// No piece of a split holds the separator.
pub proof fn lemma_split_pieces_lack(s: Seq<char>, sep: char)
    ensures
        forall|i: int| 0 <= i < split_on(s, sep).len() ==> lacks(#[trigger] split_on(s, sep)[i], sep),
{
    lemma_split_scan_lack(s, sep);
}

proof fn lemma_split_scan_lack(s: Seq<char>, sep: char)
    ensures
        forall|i: int|
            0 <= i < split_scan(s, sep).0.len() ==> lacks(#[trigger] split_scan(s, sep).0[i], sep),
        lacks(split_scan(s, sep).1, sep),
    decreases s.len(),
{
    if s.len() > 0 {
        lemma_split_scan_lack(s.drop_last(), sep);
        let (ps, cur) = split_scan(s.drop_last(), sep);
        if s.last() != sep {
            assert(lacks(cur.push(s.last()), sep)) by {
                assert forall|j: int| 0 <= j < cur.push(s.last()).len() implies cur.push(
                    s.last(),
                )[j] != sep by {
                    if j < cur.len() {
                        assert(cur.push(s.last())[j] == cur[j]);
                    }
                }
            }
        } else {
            assert(lacks(Seq::<char>::empty(), sep));
        }
    }
}

/// Splitting text followed by more text without the separator: the more
/// text extends the open piece.
proof fn lemma_split_scan_append(s: Seq<char>, t: Seq<char>, sep: char)
    requires
        lacks(t, sep),
    ensures
        split_scan(s + t, sep) == (split_scan(s, sep).0, split_scan(s, sep).1 + t),
    decreases t.len(),
{
    if t.len() == 0 {
        assert(s + t =~= s);
        assert(split_scan(s, sep).1 + t =~= split_scan(s, sep).1);
    } else {
        let u = t.drop_last();
        assert(lacks(u, sep)) by {
            assert forall|j: int| 0 <= j < u.len() implies u[j] != sep by {
                assert(u[j] == t[j]);
            }
        }
        lemma_split_scan_append(s, u, sep);
        assert((s + t).drop_last() =~= s + u);
        assert((s + t).last() == t[t.len() - 1]);
        assert((split_scan(s, sep).1 + u).push(t.last()) =~= split_scan(s, sep).1 + t);
    }
}

/// Pieces without the separator, joined by it, split back into the same pieces.
pub proof fn lemma_join_split(ps: Seq<Seq<char>>, sep: char)
    requires
        ps.len() > 0,
        forall|i: int| 0 <= i < ps.len() ==> lacks(#[trigger] ps[i], sep),
    ensures
        split_on(join(ps, seq![sep]), sep) == ps,
{
    lemma_join_split_scan(ps, sep);
    assert(ps.drop_last().push(ps.last()) =~= ps);
}

proof fn lemma_join_split_scan(ps: Seq<Seq<char>>, sep: char)
    requires
        ps.len() > 0,
        forall|i: int| 0 <= i < ps.len() ==> lacks(#[trigger] ps[i], sep),
    ensures
        split_scan(join(ps, seq![sep]), sep) == (ps.drop_last(), ps.last()),
    decreases ps.len(),
{
    let e = Seq::<char>::empty();
    if ps.len() == 1 {
        assert(lacks(ps[0], sep));
        lemma_split_scan_append(e, ps[0], sep);
        assert(e + ps[0] =~= ps[0]);
        assert(e + ps[0] =~= ps.last());
        assert(ps.drop_last() =~= Seq::<Seq<char>>::empty());
    } else {
        let pre = ps.drop_last();
        assert forall|i: int| 0 <= i < pre.len() implies lacks(#[trigger] pre[i], sep) by {
            assert(pre[i] == ps[i]);
        }
        lemma_join_split_scan(pre, sep);
        let x = join(pre, seq![sep]);
        let y = x + seq![sep];
        assert(y.drop_last() =~= x);
        assert(split_scan(y, sep) == (pre.drop_last().push(pre.last()), e));
        assert(pre.drop_last().push(pre.last()) =~= pre);
        assert(lacks(ps.last(), sep));
        lemma_split_scan_append(y, ps.last(), sep);
        assert(e + ps.last() =~= ps.last());
        assert(join(ps, seq![sep]) == y + ps.last());
    }
}

/// The characters of `s` that are not whitespace (`char::is_whitespace`), in order.
pub open spec fn non_ws(s: Seq<char>) -> Seq<char>
    decreases s.len(),
{
    if s.len() == 0 {
        seq![]
    } else if is_unicode_ws(s.last()) {
        non_ws(s.drop_last())
    } else {
        non_ws(s.drop_last()).push(s.last())
    }
}

/// Dropping whitespace goes piece by piece.
pub proof fn lemma_non_ws_add(a: Seq<char>, b: Seq<char>)
    ensures
        non_ws(a + b) == non_ws(a) + non_ws(b),
    decreases b.len(),
{
    if b.len() == 0 {
        assert(a + b =~= a);
        assert(non_ws(a) + non_ws(b) =~= non_ws(a));
    } else {
        lemma_non_ws_add(a, b.drop_last());
        assert((a + b).drop_last() =~= a + b.drop_last());
        assert((a + b).last() == b.last());
        if !is_unicode_ws(b.last()) {
            assert(non_ws(a) + non_ws(b.drop_last()).push(b.last()) =~= (non_ws(a) + non_ws(
                b.drop_last(),
            )).push(b.last()));
        }
    }
}

/// All the items, concatenated.
pub open spec fn concat_all(items: Seq<Seq<char>>) -> Seq<char>
    decreases items.len(),
{
    if items.len() == 0 {
        seq![]
    } else {
        concat_all(items.drop_last()) + items.last()
    }
}

/// Every item preceded by `sep`, all concatenated.
pub open spec fn prefix_each(items: Seq<Seq<char>>, sep: Seq<char>) -> Seq<char>
    decreases items.len(),
{
    if items.len() == 0 {
        seq![]
    } else {
        prefix_each(items.drop_last(), sep) + sep + items.last()
    }
}

/// Leading whitespace removed (`str::trim_start`).
pub open spec fn trim_start(s: Seq<char>) -> Seq<char>
    decreases s.len(),
{
    if s.len() > 0 && is_unicode_ws(s[0]) {
        trim_start(s.drop_first())
    } else {
        s
    }
}

/// Trailing whitespace removed (`str::trim_end`).
pub open spec fn trim_end(s: Seq<char>) -> Seq<char>
    decreases s.len(),
{
    if s.len() > 0 && is_unicode_ws(s.last()) {
        trim_end(s.drop_last())
    } else {
        s
    }
}

/// Leading and trailing whitespace removed (`str::trim`).
pub open spec fn trim(s: Seq<char>) -> Seq<char> {
    trim_end(trim_start(s))
}

proof fn lemma_trim_start_skip(s: Seq<char>, a: int)
    requires
        0 <= a <= s.len(),
        forall|j: int| 0 <= j < a ==> is_unicode_ws(s[j]),
        a < s.len() ==> !is_unicode_ws(s[a]),
    ensures
        trim_start(s) == s.skip(a),
    decreases a,
{
    if a == 0 {
        assert(s.skip(0) =~= s);
    } else {
        let t = s.drop_first();
        assert forall|j: int| 0 <= j < a - 1 implies is_unicode_ws(t[j]) by {
            assert(t[j] == s[j + 1]);
        }
        if a - 1 < t.len() {
            assert(t[a - 1] == s[a]);
        }
        lemma_trim_start_skip(t, a - 1);
        assert(t.skip(a - 1) =~= s.skip(a));
    }
}

proof fn lemma_trim_end_take(s: Seq<char>, b: int)
    requires
        0 <= b <= s.len(),
        forall|j: int| b <= j < s.len() ==> is_unicode_ws(s[j]),
        b > 0 ==> !is_unicode_ws(s[b - 1]),
    ensures
        trim_end(s) == s.take(b),
    decreases s.len() - b,
{
    if b == s.len() {
        assert(s.take(b) =~= s);
    } else {
        let t = s.drop_last();
        assert forall|j: int| b <= j < t.len() implies is_unicode_ws(t[j]) by {
            assert(t[j] == s[j]);
        }
        if b > 0 {
            assert(t[b - 1] == s[b - 1]);
        }
        lemma_trim_end_take(t, b);
        assert(t.take(b) =~= s.take(b));
    }
}

/// `v` with leading and trailing whitespace removed.
pub fn trim_chars(v: &Vec<char>) -> (r: Vec<char>)
    ensures
        r@ == trim(v@),
{
    let mut a: usize = 0;
    while a < v.len() && unicode_ws(v[a])
        invariant
            a <= v@.len(),
            forall|j: int| 0 <= j < a ==> is_unicode_ws(v@[j]),
        decreases v.len() - a,
    {
        a += 1;
    }
    proof {
        lemma_trim_start_skip(v@, a as int);
    }
    let mut b: usize = v.len();
    while b > a && unicode_ws(v[b - 1])
        invariant
            a <= b <= v@.len(),
            forall|j: int| b <= j < v@.len() ==> is_unicode_ws(v@[j]),
        decreases b,
    {
        b -= 1;
    }
    proof {
        let t = v@.skip(a as int);
        assert forall|j: int| b - a <= j < t.len() implies is_unicode_ws(t[j]) by {
            assert(t[j] == v@[j + a]);
        }
        if b > a {
            assert(t[b - a - 1] == v@[b - 1]);
        }
        lemma_trim_end_take(t, b - a);
        assert(t.take(b - a) =~= v@.subrange(a as int, b as int));
    }
    sub_chars(v, a, b)
}

// ---------------------------------------------------------------------
// Decimal numbers
// ---------------------------------------------------------------------

pub open spec fn digit_value(c: char) -> nat {
    ((c as u32) - ('0' as u32)) as nat
}

pub open spec fn all_digits(s: Seq<char>) -> bool {
    forall|i: int| 0 <= i < s.len() ==> is_ascii_digit(#[trigger] s[i])
}

/// The value of a string of decimal digits.
pub open spec fn decimal_value(s: Seq<char>) -> nat
    decreases s.len(),
{
    if s.len() == 0 {
        0
    } else {
        decimal_value(s.drop_last()) * 10 + digit_value(s.last())
    }
}

/// `u32::from_str_radix(s, 10)`, as `Some` on success: an optional `+`,
/// then at least one digit, the value fitting in a `u32`.
pub open spec fn parse_u32(s: Seq<char>) -> Option<u32> {
    let d = if s.len() > 0 && s[0] == '+' {
        s.drop_first()
    } else {
        s
    };
    if d.len() > 0 && all_digits(d) && decimal_value(d) <= u32::MAX {
        Some(decimal_value(d) as u32)
    } else {
        None
    }
}

pub proof fn lemma_decimal_value_grows(s: Seq<char>, i: int)
    requires
        0 <= i <= s.len(),
        all_digits(s),
    ensures
        decimal_value(s.take(i)) <= decimal_value(s),
    decreases s.len() - i,
{
    if i < s.len() {
        lemma_decimal_value_grows(s, i + 1);
        assert(s.take(i + 1).drop_last() =~= s.take(i));
    } else {
        assert(s.take(i) =~= s);
    }
}

/// Parses a decimal port number the way `u32::from_str_radix(s, 10)` does.
pub fn parse_u32_chars(s: &Vec<char>) -> (r: Option<u32>)
    ensures
        r == parse_u32(s@),
{
    let start: usize = if s.len() > 0 && s[0] == '+' {
        1
    } else {
        0
    };
    let ghost d = if s@.len() > 0 && s@[0] == '+' {
        s@.drop_first()
    } else {
        s@
    };
    assert(d =~= s@.skip(start as int));
    if start == s.len() {
        return None;
    }
    let mut acc: u64 = 0;
    let mut i: usize = start;
    while i < s.len()
        invariant
            start <= i <= s@.len(),
            start < s@.len(),
            d == s@.skip(start as int),
            d == (if s@.len() > 0 && s@[0] == '+' {
                s@.drop_first()
            } else {
                s@
            }),
            acc <= u32::MAX,
            all_digits(d.take(i - start)),
            acc == decimal_value(d.take(i - start)),
        decreases s.len() - i,
    {
        let c = s[i];
        if !('0' <= c && c <= '9') {
            proof {
                assert(d[i - start] == c);
                assert(!all_digits(d));
            }
            return None;
        }
        let dv = (c as u32 - '0' as u32) as u64;
        proof {
            assert(d.take(i - start + 1).drop_last() =~= d.take(i - start));
            assert(d.take(i - start + 1).last() == c);
        }
        acc = acc * 10 + dv;
        i += 1;
        if acc > 0xFFFF_FFFF {
            proof {
                if all_digits(d) {
                    lemma_decimal_value_grows(d, i - start);
                    assert(decimal_value(d) > u32::MAX);
                }
            }
            return None;
        }
    }
    proof {
        assert(d.take(i - start) =~= d);
    }
    Some(acc as u32)
}

pub open spec fn digit_char(n: nat) -> char {
    (('0' as u32) + n) as char
}

/// The decimal representation of `n`, without leading zeros.
pub open spec fn decimal_text(n: nat) -> Seq<char>
    decreases n,
{
    if n < 10 {
        seq![digit_char(n)]
    } else {
        decimal_text(n / 10).push(digit_char(n % 10))
    }
}

/// Appends the decimal representation of `n` (`u32::to_string`).
pub fn push_decimal(s: &mut String, n: u32)
    ensures
        final(s)@ == old(s)@ + decimal_text(n as nat),
    decreases n,
{
    if n >= 10 {
        push_decimal(s, n / 10);
    }
    let d: u8 = (n % 10) as u8;
    let c = (48u8 + d) as char;
    push_char(s, c);
    assert(s@ =~= old(s)@ + decimal_text(n as nat));
}

/// A number written plainly: decimal digits without a leading zero, the
/// value fitting in a `u32`.
pub open spec fn plain_decimal(p: Seq<char>) -> bool {
    &&& p.len() > 0
    &&& all_digits(p)
    &&& p[0] != '0'
    &&& decimal_value(p) <= u32::MAX
}

/// A plainly written number parses to its value and prints back as written.
pub proof fn lemma_plain_decimal(p: Seq<char>)
    requires
        plain_decimal(p),
    ensures
        parse_u32(p) == Some(decimal_value(p) as u32),
        decimal_text(decimal_value(p)) == p,
    decreases p.len(),
{
    let v = decimal_value(p);
    let q = p.drop_last();
    let d = digit_value(p.last());
    assert(d < 10);
    if p.len() == 1 {
        assert(q.len() == 0);
        assert(decimal_value(q) == 0);
        assert(v == d);
        assert(digit_char(d) == p[0]);
        assert(decimal_text(v) =~= p);
    } else {
        assert(all_digits(q));
        assert(q[0] == p[0]);
        lemma_decimal_value_grows(q, 1);
        assert(q.take(1).drop_last() =~= Seq::<char>::empty());
        assert(decimal_value(q.take(1).drop_last()) == 0);
        assert(q.take(1).last() == q[0]);
        assert(decimal_value(q.take(1)) == digit_value(q[0]));
        assert(decimal_value(q) >= 1);
        lemma_decimal_value_grows(p, p.len() - 1);
        assert(p.take(p.len() - 1) =~= q);
        lemma_plain_decimal(q);
        let w = decimal_value(q);
        assert(v == w * 10 + d);
        assert(v / 10 == w && v % 10 == d) by (nonlinear_arith)
            requires
                v == w * 10 + d,
                d < 10,
        ;
        assert(v >= 10);
        assert(digit_char(d) == p.last());
        assert(decimal_text(v) =~= q.push(p.last()));
        assert(q.push(p.last()) =~= p);
    }
}

// ---------------------------------------------------------------------
// Lexicographic order (the order of `String`'s `Ord`)
// ---------------------------------------------------------------------

/// `a` sorts strictly before `b`, character by character.
///
/// UTF-8 preserves the order of code points, so this is the byte order
/// that `String`'s `Ord` uses.
pub open spec fn seq_lt(a: Seq<char>, b: Seq<char>) -> bool
    decreases a.len(),
{
    if a.len() == 0 {
        b.len() > 0
    } else if b.len() == 0 {
        false
    } else if a[0] != b[0] {
        a[0] < b[0]
    } else {
        seq_lt(a.drop_first(), b.drop_first())
    }
}

pub proof fn lemma_seq_lt_irreflexive(a: Seq<char>)
    ensures
        !seq_lt(a, a),
    decreases a.len(),
{
    if a.len() > 0 {
        lemma_seq_lt_irreflexive(a.drop_first());
    }
}

pub proof fn lemma_seq_lt_transitive(a: Seq<char>, b: Seq<char>, c: Seq<char>)
    requires
        seq_lt(a, b),
        seq_lt(b, c),
    ensures
        seq_lt(a, c),
    decreases a.len(),
{
    if a.len() > 0 && b.len() > 0 && c.len() > 0 && a[0] == b[0] && b[0] == c[0] {
        lemma_seq_lt_transitive(a.drop_first(), b.drop_first(), c.drop_first());
    }
}

pub proof fn lemma_seq_lt_total(a: Seq<char>, b: Seq<char>)
    ensures
        a == b || seq_lt(a, b) || seq_lt(b, a),
    decreases a.len(),
{
    if a.len() > 0 && b.len() > 0 && a[0] == b[0] {
        lemma_seq_lt_total(a.drop_first(), b.drop_first());
        if a.drop_first() == b.drop_first() {
            assert(a =~= seq![a[0]] + a.drop_first());
            assert(b =~= seq![b[0]] + b.drop_first());
        }
    } else if a.len() == 0 && b.len() == 0 {
        assert(a =~= b);
    }
}

proof fn lemma_seq_lt_common_prefix(a: Seq<char>, b: Seq<char>, i: int)
    requires
        0 <= i <= a.len(),
        i <= b.len(),
        forall|j: int| 0 <= j < i ==> a[j] == b[j],
    ensures
        seq_lt(a, b) == seq_lt(a.skip(i), b.skip(i)),
    decreases i,
{
    if i > 0 {
        lemma_seq_lt_common_prefix(a.drop_first(), b.drop_first(), i - 1);
        assert(a.drop_first().skip(i - 1) =~= a.skip(i));
        assert(b.drop_first().skip(i - 1) =~= b.skip(i));
    } else {
        assert(a.skip(0) =~= a);
        assert(b.skip(0) =~= b);
    }
}

/// Whether `a` sorts strictly before `b`.
pub fn chars_lt(a: &Vec<char>, b: &Vec<char>) -> (r: bool)
    ensures
        r == seq_lt(a@, b@),
{
    let mut i: usize = 0;
    while i < a.len() && i < b.len() && a[i] == b[i]
        invariant
            i <= a@.len(),
            i <= b@.len(),
            forall|j: int| 0 <= j < i ==> a@[j] == b@[j],
        decreases a.len() - i,
    {
        i += 1;
    }
    proof {
        lemma_seq_lt_common_prefix(a@, b@, i as int);
    }
    if i == a.len() {
        i < b.len()
    } else if i == b.len() {
        false
    } else {
        proof {
            assert(a@.skip(i as int)[0] == a@[i as int]);
            assert(b@.skip(i as int)[0] == b@[i as int]);
        }
        a[i] < b[i]
    }
}

} // verus!
