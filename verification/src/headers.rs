//! HTTP header fields: a multimap from normalized field names to
//! normalized values, and its wire form.
use vstd::prelude::*;

use crate::text::{
    all_ascii, ascii_lower, ascii_upper, ascii_upper_char, chars_of, is_ascii_char, join,
    lemma_join_push, prefix_each, push_all, push_char, push_str, split_chars, split_on, split_scan,
    ascii_lower_char,
    string_of, string_of_range, sub_chars, trim, trim_chars, trim_end, trim_start, utf8_bytes,
    word_scan, words, words_of, is_ascii_ws, is_unicode_ws, lacks, lemma_join_split,
    lemma_split_pieces_lack, non_ws, lemma_non_ws_add, concat_all,
};

verus! {

broadcast use crate::text::lemma_char_vec_deep_view;

// ---------------------------------------------------------------------
// Lower-casing (std)
// ---------------------------------------------------------------------

/// The result of `str::to_lowercase`: lower case in the sense of the Unicode
/// `Lowercase` mapping, which may change the length of the text.
pub uninterp spec fn str_lowercase(s: Seq<char>) -> Seq<char>;

/// Calls `str::to_lowercase`; the contract only names the result.
#[verifier::external_body]
fn to_lowercase(s: &str) -> (r: String)
    ensures
        r@ == str_lowercase(s@),
{
    s.to_lowercase()
}

/// Lower case: ASCII text by the ASCII rule (which is what the Unicode
/// mapping does to it), other text by `str::to_lowercase`.
pub open spec fn lowercase(s: Seq<char>) -> Seq<char> {
    if all_ascii(s) {
        ascii_lower(s)
    } else {
        str_lowercase(s)
    }
}

fn lowercase_chars(v: &Vec<char>) -> (r: String)
    ensures
        r@ == lowercase(v@),
{
    let mut ascii = true;
    let mut i: usize = 0;
    while i < v.len()
        invariant
            i <= v@.len(),
            ascii == forall|j: int| 0 <= j < i ==> is_ascii_char(#[trigger] v@[j]),
        decreases v.len() - i,
    {
        if !((v[i] as u32) < 128) {
            ascii = false;
        }
        i += 1;
    }
    if ascii {
        let mut out = String::new();
        let mut k: usize = 0;
        while k < v.len()
            invariant
                k <= v@.len(),
                out@ == ascii_lower(v@.take(k as int)),
            decreases v.len() - k,
        {
            let c = v[k];
            let l = if 'A' <= c && c <= 'Z' {
                ((c as u8) + 32) as char
            } else {
                c
            };
            push_char(&mut out, l);
            k += 1;
            assert(out@ =~= ascii_lower(v@.take(k as int)));
        }
        assert(v@.take(v@.len() as int) =~= v@);
        out
    } else {
        let s = string_of(v);
        to_lowercase(s.as_str())
    }
}

// ---------------------------------------------------------------------
// Normalization
// ---------------------------------------------------------------------

/// A field name that `normalize_header_field` accepts: every `-`-separated
/// piece is non-empty and starts with an ASCII character, so that it can be
/// split after its first byte.
pub open spec fn field_ok(s: Seq<char>) -> bool {
    forall|i: int|
        0 <= i < split_on(s, '-').len() ==> {
            let p = #[trigger] split_on(s, '-')[i];
            p.len() > 0 && is_ascii_char(p[0])
        }
}

/// A piece of a field name with its first character in upper case and the rest in lower case.
pub open spec fn capitalize(p: Seq<char>) -> Seq<char> {
    seq![ascii_upper_char(p[0])] + lowercase(p.drop_first())
}

/// The normalized field name: every `-`-separated piece capitalized.
pub open spec fn normalize_field(s: Seq<char>) -> Seq<char> {
    join(split_on(s, '-').map_values(|p: Seq<char>| capitalize(p)), seq!['-'])
}

/// The normalized field value: the ASCII-whitespace-separated words joined by
/// single spaces, then trimmed of Unicode whitespace at both ends.
pub open spec fn normalize_value(s: Seq<char>) -> Seq<char> {
    trim(prefix_each(words(s, false), seq![' ']))
}

/// Text whose only ASCII whitespace is the plain space: no tab, line feed,
/// form feed or carriage return.
pub open spec fn spaces_only(s: Seq<char>) -> bool {
    forall|i: int| 0 <= i < s.len() ==> #[trigger] s[i] == ' ' || !is_ascii_ws(s[i])
}

proof fn lemma_word_scan_no_ws(s: Seq<char>)
    ensures
        forall|i: int|
            0 <= i < word_scan(s, false).0.len() ==> spaces_only(#[trigger] word_scan(s, false).0[i]),
        spaces_only(word_scan(s, false).1),
    decreases s.len(),
{
    if s.len() > 0 {
        lemma_word_scan_no_ws(s.drop_last());
    }
}

proof fn lemma_prefix_each_spaces_only(items: Seq<Seq<char>>)
    requires
        forall|i: int| 0 <= i < items.len() ==> spaces_only(#[trigger] items[i]),
    ensures
        spaces_only(prefix_each(items, seq![' '])),
    decreases items.len(),
{
    if items.len() > 0 {
        lemma_prefix_each_spaces_only(items.drop_last());
        assert(spaces_only(items.last()));
        let a = prefix_each(items.drop_last(), seq![' ']);
        let r = a + seq![' '] + items.last();
        assert forall|i: int| 0 <= i < r.len() implies #[trigger] r[i] == ' ' || !is_ascii_ws(r[i]) by {
            if i < a.len() {
                assert(r[i] == a[i]);
            } else if i > a.len() {
                assert(r[i] == items.last()[i - a.len() - 1]);
            }
        }
    }
}

proof fn lemma_trim_spaces_only(s: Seq<char>)
    requires
        spaces_only(s),
    ensures
        spaces_only(trim_start(s)),
        spaces_only(trim_end(s)),
    decreases s.len(),
{
    if s.len() > 0 {
        let a = s.drop_first();
        let b = s.drop_last();
        assert(spaces_only(a)) by {
            assert forall|i: int| 0 <= i < a.len() implies #[trigger] a[i] == ' ' || !is_ascii_ws(a[i]) by {
                assert(a[i] == s[i + 1]);
            }
        }
        assert(spaces_only(b)) by {
            assert forall|i: int| 0 <= i < b.len() implies #[trigger] b[i] == ' ' || !is_ascii_ws(b[i]) by {
                assert(b[i] == s[i]);
            }
        }
        lemma_trim_spaces_only(a);
        lemma_trim_spaces_only(b);
    }
}

/// A normalized value stays on one line: its only ASCII whitespace is the
/// plain space, so it holds no carriage return or line feed.
pub proof fn law_normalized_value_is_one_line(s: Seq<char>)
    ensures
        spaces_only(normalize_value(s)),
{
    lemma_word_scan_no_ws(s);
    let ws = words(s, false);
    assert forall|i: int| 0 <= i < ws.len() implies spaces_only(#[trigger] ws[i]) by {
        if i < word_scan(s, false).0.len() {
            assert(ws[i] == word_scan(s, false).0[i]);
        }
    }
    lemma_prefix_each_spaces_only(ws);
    let j = prefix_each(ws, seq![' ']);
    lemma_trim_spaces_only(j);
    lemma_trim_spaces_only(trim_start(j));
}

/// Normalizes a field name: `content-TYPE` becomes `Content-Type`.
pub fn normalize_header_field(s: &str) -> (r: String)
    requires
        field_ok(s@),
    ensures
        r@ == normalize_field(s@),
{
    let v = chars_of(s);
    let parts = split_chars(&v, '-');
    let ghost caps = split_on(s@, '-').map_values(|p: Seq<char>| capitalize(p));
    let mut out = String::new();
    let mut t: usize = 0;
    while t < parts.len()
        invariant
            t <= parts@.len(),
            parts.deep_view() == split_on(s@, '-'),
            field_ok(s@),
            caps == split_on(s@, '-').map_values(|p: Seq<char>| capitalize(p)),
            out@ == join(caps.take(t as int), seq!['-']),
        decreases parts.len() - t,
    {
        let p = &parts[t];
        proof {
            assert(parts.deep_view()[t as int] == p@);
            let q = split_on(s@, '-')[t as int];
            assert(q.len() > 0 && is_ascii_char(q[0]));
            lemma_join_push(caps.take(t as int), seq!['-'], caps[t as int]);
            assert(caps.take(t + 1) =~= caps.take(t as int).push(caps[t as int]));
        }
        let ghost before = out@;
        if t > 0 {
            push_char(&mut out, '-');
        }
        push_char(&mut out, ascii_upper(p[0]));
        let rest = sub_chars(p, 1, p.len());
        let low = lowercase_chars(&rest);
        push_str(&mut out, low.as_str());
        proof {
            assert(rest@ =~= p@.drop_first());
            if t > 0 {
                assert(out@ =~= before + seq!['-'] + capitalize(p@));
            } else {
                assert(out@ =~= capitalize(p@));
            }
        }
        t += 1;
    }
    proof {
        assert(caps.take(parts@.len() as int) =~= caps);
    }
    out
}

/// Normalizes a field value: runs of ASCII whitespace become single spaces
/// and whitespace at both ends is removed.
pub fn normalize_header_value(s: &str) -> (r: String)
    ensures
        r@ == normalize_value(s@),
{
    let v = chars_of(s);
    let ws = words_of(&v, false);
    let mut joined: Vec<char> = Vec::new();
    let mut t: usize = 0;
    while t < ws.len()
        invariant
            t <= ws@.len(),
            ws.deep_view() == words(s@, false),
            joined@ == prefix_each(ws.deep_view().take(t as int), seq![' ']),
        decreases ws.len() - t,
    {
        let w = &ws[t];
        let ghost before = joined@;
        joined.push(' ');
        let mut n: usize = 0;
        while n < w.len()
            invariant
                n <= w@.len(),
                joined@ == before + seq![' '] + w@.take(n as int),
            decreases w.len() - n,
        {
            joined.push(w[n]);
            n += 1;
            assert(joined@ =~= before + seq![' '] + w@.take(n as int));
        }
        proof {
            assert(w@.take(w@.len() as int) =~= w@);
            assert(ws.deep_view()[t as int] == w@);
            assert(ws.deep_view().take(t + 1).drop_last() =~= ws.deep_view().take(t as int));
        }
        t += 1;
    }
    proof {
        assert(ws.deep_view().take(ws@.len() as int) =~= ws.deep_view());
    }
    let trimmed = trim_chars(&joined);
    string_of(&trimmed)
}

proof fn lemma_split_scan_lower(s: Seq<char>)
    ensures
        split_scan(ascii_lower(s), '-').0 == split_scan(s, '-').0.map_values(
            |p: Seq<char>| ascii_lower(p),
        ),
        split_scan(ascii_lower(s), '-').1 == ascii_lower(split_scan(s, '-').1),
    decreases s.len(),
{
    let l = ascii_lower(s);
    if s.len() == 0 {
        assert(l.len() == 0);
        assert(split_scan(s, '-').0.map_values(|p: Seq<char>| ascii_lower(p)) =~= Seq::<
            Seq<char>,
        >::empty());
        assert(ascii_lower(Seq::<char>::empty()) =~= Seq::<char>::empty());
    } else {
        lemma_split_scan_lower(s.drop_last());
        assert(l.drop_last() =~= ascii_lower(s.drop_last()));
        assert(l.last() == ascii_lower_char(s.last()));
        let (ps, cur) = split_scan(s.drop_last(), '-');
        if s.last() == '-' {
            assert(split_scan(s, '-').0.map_values(|p: Seq<char>| ascii_lower(p)) =~= ps.map_values(
                |p: Seq<char>| ascii_lower(p),
            ).push(ascii_lower(cur)));
            assert(ascii_lower(Seq::<char>::empty()) =~= Seq::<char>::empty());
        } else {
            assert(ascii_lower(cur.push(s.last())) =~= ascii_lower(cur).push(
                ascii_lower_char(s.last()),
            ));
        }
    }
}

proof fn lemma_capitalize_lower(p: Seq<char>)
    requires
        all_ascii(p),
    ensures
        capitalize(ascii_lower(p)) == capitalize(p),
{
    let q = ascii_lower(p);
    if p.len() == 0 {
        assert(q =~= p);
    } else {
        assert(q[0] == ascii_lower_char(p[0]));
        assert(q.drop_first() =~= ascii_lower(p.drop_first()));
        assert(ascii_lower(ascii_lower(p.drop_first())) =~= ascii_lower(p.drop_first()));
        assert(all_ascii(p.drop_first())) by {
            assert forall|i: int| 0 <= i < p.drop_first().len() implies is_ascii_char(
                #[trigger] p.drop_first()[i],
            ) by {
                assert(p.drop_first()[i] == p[i + 1]);
            }
        }
        assert(all_ascii(ascii_lower(p.drop_first())));
    }
}

/// The normalized name of an ASCII field name is that of its lower-case form.
proof fn lemma_normalize_lower(s: Seq<char>)
    requires
        all_ascii(s),
    ensures
        normalize_field(ascii_lower(s)) == normalize_field(s),
{
    lemma_split_scan_lower(s);
    let ps = split_on(s, '-');
    let qs = split_on(ascii_lower(s), '-');
    assert(qs =~= ps.map_values(|p: Seq<char>| ascii_lower(p)));
    lemma_split_pieces_ascii(s);
    assert forall|i: int| 0 <= i < ps.len() implies capitalize(qs[i]) == capitalize(ps[i]) by {
        lemma_capitalize_lower(ps[i]);
    }
    assert(qs.map_values(|p: Seq<char>| capitalize(p)) =~= ps.map_values(
        |p: Seq<char>| capitalize(p),
    ));
}

proof fn lemma_split_scan_ascii(s: Seq<char>)
    requires
        all_ascii(s),
    ensures
        forall|i: int|
            0 <= i < split_scan(s, '-').0.len() ==> all_ascii(#[trigger] split_scan(s, '-').0[i]),
        all_ascii(split_scan(s, '-').1),
    decreases s.len(),
{
    if s.len() > 0 {
        assert(all_ascii(s.drop_last())) by {
            assert forall|i: int| 0 <= i < s.drop_last().len() implies is_ascii_char(
                #[trigger] s.drop_last()[i],
            ) by {
                assert(s.drop_last()[i] == s[i]);
            }
        }
        lemma_split_scan_ascii(s.drop_last());
        assert(is_ascii_char(s[s.len() - 1]));
    }
}

proof fn lemma_split_pieces_ascii(s: Seq<char>)
    requires
        all_ascii(s),
    ensures
        forall|i: int| 0 <= i < split_on(s, '-').len() ==> all_ascii(#[trigger] split_on(s, '-')[i]),
{
    lemma_split_scan_ascii(s);
}

/// Field names are case-insensitive: two ASCII names that differ only in
/// the case of letters are normalized to the same name, so `insert`, `set`
/// and the lookups of normalized names treat them as one field.
pub proof fn law_field_names_ignore_case(k1: Seq<char>, k2: Seq<char>)
    requires
        all_ascii(k1),
        all_ascii(k2),
        ascii_lower(k1) == ascii_lower(k2),
    ensures
        normalize_field(k1) == normalize_field(k2),
{
    lemma_normalize_lower(k1);
    lemma_normalize_lower(k2);
}

// ---------------------------------------------------------------------
// The header multimap
// ---------------------------------------------------------------------

/// The entries of a header set in their stored order: each field name with its values.
pub type HeaderEntries = Seq<(Seq<char>, Seq<Seq<char>>)>;

/// The index of the entry for `k`, if there is one.
pub open spec fn key_index(es: HeaderEntries, k: Seq<char>) -> Option<int>
    decreases es.len(),
{
    if es.len() == 0 {
        None
    } else if es[0].0 == k {
        Some(0)
    } else {
        match key_index(es.drop_first(), k) {
            Some(i) => Some(i + 1),
            None => None,
        }
    }
}

pub proof fn lemma_key_index(es: HeaderEntries, k: Seq<char>)
    ensures
        match key_index(es, k) {
            Some(i) => 0 <= i < es.len() && es[i].0 == k && forall|j: int|
                0 <= j < i ==> es[j].0 != k,
            None => forall|j: int| 0 <= j < es.len() ==> es[j].0 != k,
        },
    decreases es.len(),
{
    if es.len() > 0 && es[0].0 != k {
        lemma_key_index(es.drop_first(), k);
        match key_index(es.drop_first(), k) {
            Some(i) => {
                assert forall|j: int| 0 <= j < i + 1 implies es[j].0 != k by {
                    if j > 0 {
                        assert(es[j] == es.drop_first()[j - 1]);
                    }
                }
            },
            None => {
                assert forall|j: int| 0 <= j < es.len() implies es[j].0 != k by {
                    if j > 0 {
                        assert(es[j] == es.drop_first()[j - 1]);
                    }
                }
            },
        }
    }
}

pub proof fn lemma_key_index_at(es: HeaderEntries, k: Seq<char>, i: int)
    requires
        0 <= i <= es.len(),
        forall|j: int| 0 <= j < i ==> es[j].0 != k,
        i < es.len() ==> es[i].0 == k,
    ensures
        key_index(es, k) == (if i < es.len() {
            Some(i)
        } else {
            None::<int>
        }),
{
    lemma_key_index(es, k);
    match key_index(es, k) {
        Some(m) => {
            if m < i {
                assert(es[m].0 != k);
            }
            if i < m {
                assert(es[i].0 != k);
            }
        },
        None => {
            if i < es.len() {
                assert(es[i].0 != k);
            }
        },
    }
}

/// Field names distinct, every name with at least one value.
pub open spec fn headers_wf(es: HeaderEntries) -> bool {
    &&& forall|i: int, j: int| 0 <= i < j < es.len() ==> es[i].0 != es[j].0
    &&& forall|i: int| 0 <= i < es.len() ==> (#[trigger] es[i]).1.len() > 0
}

/// The entries as a map from field name to values.
pub open spec fn headers_map(es: HeaderEntries) -> Map<Seq<char>, Seq<Seq<char>>> {
    Map::new(|k: Seq<char>| key_index(es, k) is Some, |k: Seq<char>| es[key_index(es, k)->0].1)
}

/// Every field has at least one value.
pub open spec fn values_present(m: Map<Seq<char>, Seq<Seq<char>>>) -> bool {
    forall|k: Seq<char>| m.contains_key(k) ==> #[trigger] m[k].len() > 0
}

proof fn lemma_wf_values_present(es: HeaderEntries)
    requires
        headers_wf(es),
    ensures
        values_present(headers_map(es)),
{
    assert forall|k: Seq<char>| headers_map(es).contains_key(k) implies #[trigger] headers_map(
        es,
    )[k].len() > 0 by {
        lemma_key_index(es, k);
    }
}

/// `v` appended to the values of `k`; a new last entry if `k` had none.
pub open spec fn headers_add(es: HeaderEntries, k: Seq<char>, v: Seq<char>) -> HeaderEntries {
    match key_index(es, k) {
        Some(i) => es.update(i, (k, es[i].1.push(v))),
        None => es.push((k, seq![v])),
    }
}

/// The values of `k` replaced by `v` alone; a new last entry if `k` had none.
pub open spec fn headers_put(es: HeaderEntries, k: Seq<char>, v: Seq<char>) -> HeaderEntries {
    match key_index(es, k) {
        Some(i) => es.update(i, (k, seq![v])),
        None => es.push((k, seq![v])),
    }
}

/// The values that adding `v` under `k` leaves for `k`.
pub open spec fn added_values(
    m: Map<Seq<char>, Seq<Seq<char>>>,
    k: Seq<char>,
    v: Seq<char>,
) -> Seq<Seq<char>> {
    if m.contains_key(k) {
        m[k].push(v)
    } else {
        seq![v]
    }
}

proof fn lemma_headers_update(es: HeaderEntries, k: Seq<char>, v: Seq<char>)
    requires
        headers_wf(es),
    ensures
        headers_wf(headers_add(es, k, v)),
        headers_wf(headers_put(es, k, v)),
        headers_map(headers_add(es, k, v)) == headers_map(es).insert(
            k,
            added_values(headers_map(es), k, v),
        ),
        headers_map(headers_put(es, k, v)) == headers_map(es).insert(k, seq![v]),
{
    lemma_key_index(es, k);
    let a = headers_add(es, k, v);
    let p = headers_put(es, k, v);
    assert forall|i: int| 0 <= i < a.len() implies a[i].0 == (if i < es.len() {
        es[i].0
    } else {
        k
    }) by {}
    assert forall|i: int| 0 <= i < p.len() implies p[i].0 == (if i < es.len() {
        es[i].0
    } else {
        k
    }) by {}
    assert forall|i: int, j: int| 0 <= i < j < a.len() implies a[i].0 != a[j].0 by {}
    assert forall|i: int, j: int| 0 <= i < j < p.len() implies p[i].0 != p[j].0 by {}
    assert forall|i: int| 0 <= i < a.len() implies (#[trigger] a[i]).1.len() > 0 by {}
    assert forall|i: int| 0 <= i < p.len() implies (#[trigger] p[i]).1.len() > 0 by {}
    assert forall|q: Seq<char>| q != k implies key_index(a, q) == key_index(es, q) && key_index(
        p,
        q,
    ) == key_index(es, q) by {
        lemma_key_index(es, q);
        match key_index(es, q) {
            Some(i) => {
                lemma_key_index_at(a, q, i);
                lemma_key_index_at(p, q, i);
            },
            None => {
                lemma_key_index_at(a, q, a.len() as int);
                lemma_key_index_at(p, q, p.len() as int);
            },
        }
    }
    match key_index(es, k) {
        Some(i) => {
            lemma_key_index_at(a, k, i);
            lemma_key_index_at(p, k, i);
        },
        None => {
            lemma_key_index_at(a, k, es.len() as int);
            lemma_key_index_at(p, k, es.len() as int);
        },
    }
    let m = headers_map(es);
    let ma = m.insert(k, added_values(m, k, v));
    let mp = m.insert(k, seq![v]);
    assert forall|q: Seq<char>| #[trigger] headers_map(a).dom().contains(q) == ma.dom().contains(q)
        && headers_map(p).dom().contains(q) == mp.dom().contains(q) by {
        if q != k {
            lemma_key_index(es, q);
        }
    }
    assert forall|q: Seq<char>| ma.dom().contains(q) implies #[trigger] headers_map(a)[q] == ma[q]
        && headers_map(p)[q] == mp[q] by {
        if q != k {
            lemma_key_index(es, q);
            let i = key_index(es, q)->0;
            assert(a[i] == es[i]);
            assert(p[i] == es[i]);
        }
    }
    assert forall|q: Seq<char>| mp.dom().contains(q) implies #[trigger] headers_map(p)[q] == mp[q] by {
        if q != k {
            lemma_key_index(es, q);
            let i = key_index(es, q)->0;
            assert(p[i] == es[i]);
        }
    }
    assert(headers_map(a) =~= ma);
    assert(headers_map(p) =~= mp);
}

/// Inserting appends: the field keeps its earlier values in order and gains
/// the new one last, so its first value (what `get` returns) stays what it
/// was, or is the new value if the field was absent.
pub proof fn law_insert_appends(m: Map<Seq<char>, Seq<Seq<char>>>, k: Seq<char>, v: Seq<char>)
    requires
        m.contains_key(k) ==> m[k].len() > 0,
    ensures
        added_values(m, k, v).last() == v,
        added_values(m, k, v).drop_last() == if m.contains_key(k) {
            m[k]
        } else {
            Seq::<Seq<char>>::empty()
        },
        added_values(m, k, v)[0] == if m.contains_key(k) {
            m[k][0]
        } else {
            v
        },
{
    if m.contains_key(k) {
        assert(m[k].push(v).drop_last() =~= m[k]);
    } else {
        assert(seq![v].drop_last() =~= Seq::<Seq<char>>::empty());
    }
}

/// A set of header fields, each name with the values given to it in order.
pub struct Headers {
    hs: Vec<(String, Vec<String>)>,
}

impl View for Headers {
    type V = Map<Seq<char>, Seq<Seq<char>>>;

    closed spec fn view(&self) -> Map<Seq<char>, Seq<Seq<char>>> {
        headers_map(self.hs.deep_view())
    }
}

impl Headers {
    #[verifier::type_invariant]
    spec fn inv(self) -> bool {
        headers_wf(self.hs.deep_view())
    }

    /// The entries in their stored order (names in order of first insertion).
    pub closed spec fn entries(&self) -> HeaderEntries {
        self.hs.deep_view()
    }

    /// No header fields.
    pub fn new() -> (r: Headers)
        ensures
            r@ == Map::<Seq<char>, Seq<Seq<char>>>::empty(),
            r.entries() == Seq::<(Seq<char>, Seq<Seq<char>>)>::empty(),
            values_present(r@),
    {
        let r = Headers { hs: Vec::new() };
        assert(r.hs.deep_view() =~= Seq::<(Seq<char>, Seq<Seq<char>>)>::empty());
        assert(headers_map(r.hs.deep_view()) =~= Map::<Seq<char>, Seq<Seq<char>>>::empty());
        r
    }

    fn index_of(hs: &Vec<(String, Vec<String>)>, k: &String) -> (r: Option<usize>)
        ensures
            match r {
                Some(i) => i < hs@.len() && key_index(hs.deep_view(), k@) == Some(i as int),
                None => key_index(hs.deep_view(), k@) == None::<int>,
            },
    {
        let ghost es = hs.deep_view();
        let mut i: usize = 0;
        while i < hs.len()
            invariant
                i <= hs@.len(),
                es == hs.deep_view(),
                forall|j: int| 0 <= j < i ==> es[j].0 != k@,
            decreases hs.len() - i,
        {
            proof {
                assert(es[i as int].0 == hs@[i as int].0@);
            }
            if hs[i].0 == *k {
                proof {
                    lemma_key_index_at(es, k@, i as int);
                }
                return Some(i);
            }
            i += 1;
        }
        proof {
            lemma_key_index_at(es, k@, i as int);
        }
        None
    }

    fn update(&mut self, key: String, value: String, replace: bool)
        ensures
            final(self).entries() == if replace {
                headers_put(old(self).entries(), key@, value@)
            } else {
                headers_add(old(self).entries(), key@, value@)
            },
    {
        proof {
            use_type_invariant(&*self);
            lemma_headers_update(self.entries(), key@, value@);
        }
        let ghost es = self.entries();
        let mut hs: Vec<(String, Vec<String>)> = Vec::new();
        std::mem::swap(&mut hs, &mut self.hs);
        match Headers::index_of(&hs, &key) {
            Some(i) => {
                proof {
                    lemma_key_index(es, key@);
                    assert(es[i as int].0 == hs@[i as int].0@);
                }
                let (k, mut vs) = hs.remove(i);
                if replace {
                    vs.clear();
                }
                vs.push(value);
                hs.insert(i, (k, vs));
                proof {
                    if replace {
                        assert(vs.deep_view() =~= seq![value@]);
                    } else {
                        assert(vs.deep_view() =~= es[i as int].1.push(value@));
                    }
                    assert(k@ == key@);
                    assert(hs.deep_view() =~= if replace {
                        headers_put(es, key@, value@)
                    } else {
                        headers_add(es, key@, value@)
                    });
                }
            },
            None => {
                let mut vs: Vec<String> = Vec::new();
                vs.push(value);
                hs.push((key, vs));
                proof {
                    assert(vs.deep_view() =~= seq![value@]);
                    assert(hs.deep_view() =~= es.push((key@, seq![value@])));
                }
            },
        }
        self.hs = hs;
    }

    /// Adds a value under a field name; both are normalized first.
    pub fn insert(&mut self, key: &str, value: &str)
        requires
            field_ok(key@),
        ensures
            final(self)@ == old(self)@.insert(
                normalize_field(key@),
                added_values(old(self)@, normalize_field(key@), normalize_value(value@)),
            ),
            final(self).entries() == headers_add(
                old(self).entries(),
                normalize_field(key@),
                normalize_value(value@),
            ),
            values_present(final(self)@),
    {
        proof {
            use_type_invariant(&*self);
            lemma_headers_update(self.entries(), normalize_field(key@), normalize_value(value@));
        }
        let k = normalize_header_field(key);
        let v = normalize_header_value(value);
        self.update(k, v, false);
        proof {
            use_type_invariant(&*self);
            lemma_wf_values_present(self.entries());
        }
    }

    /// Makes a value the only one under a field name; both are normalized first.
    pub fn set(&mut self, key: &str, value: &str)
        requires
            field_ok(key@),
        ensures
            final(self)@ == old(self)@.insert(normalize_field(key@), seq![normalize_value(value@)]),
            final(self).entries() == headers_put(
                old(self).entries(),
                normalize_field(key@),
                normalize_value(value@),
            ),
            values_present(final(self)@),
    {
        proof {
            use_type_invariant(&*self);
            lemma_headers_update(self.entries(), normalize_field(key@), normalize_value(value@));
        }
        let k = normalize_header_field(key);
        let v = normalize_header_value(value);
        self.update(k, v, true);
        proof {
            use_type_invariant(&*self);
            lemma_wf_values_present(self.entries());
        }
    }

    /// Whether a field of exactly this (not normalized) name is present.
    pub fn key_exists(&self, key: &str) -> (r: bool)
        ensures
            r == self@.contains_key(key@),
    {
        let k = key.to_owned();
        Headers::index_of(&self.hs, &k).is_some()
    }

    /// The first value of the field of exactly this name.
    pub fn get(&self, key: &str) -> (r: Option<&str>)
        ensures
            match r {
                Some(x) => self@.contains_key(key@) && self@[key@].len() > 0 && x@ == self@[key@][0],
                None => !self@.contains_key(key@),
            },
    {
        proof {
            use_type_invariant(self);
        }
        let k = key.to_owned();
        match Headers::index_of(&self.hs, &k) {
            Some(i) => {
                let vs = &self.hs[i].1;
                proof {
                    assert(self.hs.deep_view()[i as int].1 == vs.deep_view());
                    assert(vs.deep_view().len() > 0);
                    assert(vs.deep_view()[0] == vs@[0]@);
                }
                Some(vs[0].as_str())
            },
            None => None,
        }
    }

    /// All values of the field of exactly this name.
    pub fn get_vec(&self, key: &str) -> (r: Option<&Vec<String>>)
        ensures
            match r {
                Some(v) => self@.contains_key(key@) && v.deep_view() == self@[key@] && v@.len() > 0,
                None => !self@.contains_key(key@),
            },
    {
        proof {
            use_type_invariant(self);
        }
        let k = key.to_owned();
        match Headers::index_of(&self.hs, &k) {
            Some(i) => {
                proof {
                    assert(self.hs.deep_view()[i as int].1 == self.hs@[i as int].1.deep_view());
                    assert(self.hs.deep_view()[i as int].1.len() > 0);
                }
                Some(&self.hs[i].1)
            },
            None => None,
        }
    }
}


// ---------------------------------------------------------------------
// Wire form
// ---------------------------------------------------------------------

/// General header fields, written first, in this order.
pub open spec fn general_fields() -> Seq<Seq<char>> {
    seq![
        "Cache-Control"@,
        "Connection"@,
        "Date"@,
        "Pragma"@,
        "Trailer"@,
        "Transfer-Encoding"@,
        "Upgrade"@,
        "Via"@,
        "Warning"@,
    ]
}

/// Request header fields, written second, in this order.
pub open spec fn request_fields() -> Seq<Seq<char>> {
    seq![
        "Accept"@,
        "Accept-Charset"@,
        "Accept-Encoding"@,
        "Accept-Language"@,
        "Authorization"@,
        "Expect"@,
        "From"@,
        "Host"@,
        "If-Match"@,
        "If-Modified-Since"@,
        "If-None-Match"@,
        "If-Range"@,
        "If-Unmodified-Since"@,
        "Max-Forwards"@,
        "Proxy-Authorization"@,
        "Range"@,
        "Referer"@,
        "TE"@,
        "User-Agent"@,
    ]
}

/// Entity header fields, written third, in this order.
pub open spec fn entity_fields() -> Seq<Seq<char>> {
    seq![
        "Allow"@,
        "Content-Encoding"@,
        "Content-Language"@,
        "Content-Length"@,
        "Content-MD5"@,
        "Content-Range"@,
        "Content-Type"@,
        "Expires"@,
        "Last-Modified"@,
    ]
}

/// All names that have a fixed place.
pub open spec fn known_fields() -> Seq<Seq<char>> {
    general_fields() + request_fields() + entity_fields()
}

/// One field line: `name: value` and CRLF.
pub open spec fn field_line(k: Seq<char>, v: Seq<char>) -> Seq<char> {
    k + seq![':', ' '] + v + seq!['\r', '\n']
}

/// One line per value of a field.
pub open spec fn entry_text(k: Seq<char>, vs: Seq<Seq<char>>) -> Seq<char>
    decreases vs.len(),
{
    if vs.len() == 0 {
        seq![]
    } else {
        entry_text(k, vs.drop_last()) + field_line(k, vs.last())
    }
}

/// The lines of the fields named in `ks` that are present, in the order of `ks`.
pub open spec fn group_text(es: HeaderEntries, ks: Seq<Seq<char>>) -> Seq<char>
    decreases ks.len(),
{
    if ks.len() == 0 {
        seq![]
    } else {
        group_text(es, ks.drop_last()) + match key_index(es, ks.last()) {
            Some(i) => entry_text(ks.last(), es[i].1),
            None => Seq::<char>::empty(),
        }
    }
}

/// The lines of the fields whose names are not in `known`, in stored order.
pub open spec fn rest_text(es: HeaderEntries, known: Seq<Seq<char>>) -> Seq<char>
    decreases es.len(),
{
    if es.len() == 0 {
        seq![]
    } else {
        rest_text(es.drop_last(), known) + if known.contains(es.last().0) {
            Seq::<char>::empty()
        } else {
            entry_text(es.last().0, es.last().1)
        }
    }
}

/// The header block: general, request and entity fields in their fixed
/// order, then the other fields.
pub open spec fn headers_text(es: HeaderEntries) -> Seq<char> {
    group_text(es, general_fields()) + group_text(es, request_fields()) + group_text(
        es,
        entity_fields(),
    ) + rest_text(es, known_fields())
}

fn push_names(v: &mut Vec<String>, names: &[&str])
    ensures
        final(v).deep_view() == old(v).deep_view() + names@.map_values(|s: &str| s@),
{
    let mut i: usize = 0;
    while i < names.len()
        invariant
            i <= names@.len(),
            v.deep_view() == old(v).deep_view() + names@.take(i as int).map_values(|s: &str| s@),
        decreases names.len() - i,
    {
        let ghost before = v.deep_view();
        let name = names[i].to_owned();
        assert(name@ == names@[i as int]@);
        v.push(name);
        assert(v.deep_view() =~= before.push(names@[i as int]@));
        assert(names@.take(i + 1).map_values(|s: &str| s@) =~= names@.take(i as int).map_values(
            |s: &str| s@,
        ).push(names@[i as int]@));
        i += 1;
    }
    assert(names@.take(names@.len() as int) =~= names@);
}

fn general_names() -> (r: Vec<String>)
    ensures
        r.deep_view() == general_fields(),
{
    let mut v: Vec<String> = Vec::new();
    let names: [&str; 9] = [
        "Cache-Control",
        "Connection",
        "Date",
        "Pragma",
        "Trailer",
        "Transfer-Encoding",
        "Upgrade",
        "Via",
        "Warning",
    ];
    push_names(&mut v, &names);
    assert(v.deep_view() =~= general_fields());
    v
}

fn request_names() -> (r: Vec<String>)
    ensures
        r.deep_view() == request_fields(),
{
    let mut v: Vec<String> = Vec::new();
    let names: [&str; 19] = [
        "Accept",
        "Accept-Charset",
        "Accept-Encoding",
        "Accept-Language",
        "Authorization",
        "Expect",
        "From",
        "Host",
        "If-Match",
        "If-Modified-Since",
        "If-None-Match",
        "If-Range",
        "If-Unmodified-Since",
        "Max-Forwards",
        "Proxy-Authorization",
        "Range",
        "Referer",
        "TE",
        "User-Agent",
    ];
    push_names(&mut v, &names);
    assert(v.deep_view() =~= request_fields());
    v
}

fn entity_names() -> (r: Vec<String>)
    ensures
        r.deep_view() == entity_fields(),
{
    let mut v: Vec<String> = Vec::new();
    let names: [&str; 9] = [
        "Allow",
        "Content-Encoding",
        "Content-Language",
        "Content-Length",
        "Content-MD5",
        "Content-Range",
        "Content-Type",
        "Expires",
        "Last-Modified",
    ];
    push_names(&mut v, &names);
    assert(v.deep_view() =~= entity_fields());
    v
}

fn push_entry(out: &mut String, k: &String, vs: &Vec<String>)
    ensures
        final(out)@ == old(out)@ + entry_text(k@, vs.deep_view()),
{
    let mut j: usize = 0;
    while j < vs.len()
        invariant
            j <= vs@.len(),
            out@ == old(out)@ + entry_text(k@, vs.deep_view().take(j as int)),
        decreases vs.len() - j,
    {
        let ghost before = out@;
        push_str(out, k.as_str());
        push_char(out, ':');
        push_char(out, ' ');
        push_str(out, vs[j].as_str());
        push_char(out, '\r');
        push_char(out, '\n');
        proof {
            assert(vs.deep_view().take(j + 1).drop_last() =~= vs.deep_view().take(j as int));
            assert(vs.deep_view()[j as int] == vs@[j as int]@);
            assert(out@ =~= before + field_line(k@, vs.deep_view()[j as int]));
        }
        j += 1;
    }
    assert(vs.deep_view().take(vs@.len() as int) =~= vs.deep_view());
}

fn push_group(out: &mut String, hs: &Vec<(String, Vec<String>)>, ks: &Vec<String>)
    ensures
        final(out)@ == old(out)@ + group_text(hs.deep_view(), ks.deep_view()),
{
    let mut t: usize = 0;
    while t < ks.len()
        invariant
            t <= ks@.len(),
            out@ == old(out)@ + group_text(hs.deep_view(), ks.deep_view().take(t as int)),
        decreases ks.len() - t,
    {
        let ghost before = out@;
        proof {
            assert(ks.deep_view().take(t + 1).drop_last() =~= ks.deep_view().take(t as int));
            assert(ks.deep_view()[t as int] == ks@[t as int]@);
        }
        match Headers::index_of(hs, &ks[t]) {
            Some(i) => {
                push_entry(out, &ks[t], &hs[i].1);
                proof {
                    assert(hs.deep_view()[i as int].1 == hs@[i as int].1.deep_view());
                }
            },
            None => {},
        }
        proof {
            assert(out@ =~= old(out)@ + group_text(hs.deep_view(), ks.deep_view().take(t + 1)));
        }
        t += 1;
    }
    assert(ks.deep_view().take(ks@.len() as int) =~= ks.deep_view());
}

fn contains_name(names: &Vec<String>, k: &String) -> (r: bool)
    ensures
        r == names.deep_view().contains(k@),
{
    let mut i: usize = 0;
    while i < names.len()
        invariant
            i <= names@.len(),
            forall|j: int| 0 <= j < i ==> names.deep_view()[j] != k@,
        decreases names.len() - i,
    {
        if names[i] == *k {
            proof {
                assert(names.deep_view()[i as int] == k@);
            }
            return true;
        }
        i += 1;
    }
    false
}

fn push_rest(out: &mut String, hs: &Vec<(String, Vec<String>)>, known: &Vec<String>)
    ensures
        final(out)@ == old(out)@ + rest_text(hs.deep_view(), known.deep_view()),
{
    let ghost es = hs.deep_view();
    let mut t: usize = 0;
    while t < hs.len()
        invariant
            t <= hs@.len(),
            es == hs.deep_view(),
            out@ == old(out)@ + rest_text(es.take(t as int), known.deep_view()),
        decreases hs.len() - t,
    {
        let ghost before = out@;
        proof {
            assert(es.take(t + 1).drop_last() =~= es.take(t as int));
            assert(es[t as int].0 == hs@[t as int].0@);
            assert(es[t as int].1 == hs@[t as int].1.deep_view());
        }
        if !contains_name(known, &hs[t].0) {
            push_entry(out, &hs[t].0, &hs[t].1);
        }
        proof {
            assert(out@ =~= old(out)@ + rest_text(es.take(t + 1), known.deep_view()));
        }
        t += 1;
    }
    assert(es.take(hs@.len() as int) =~= es);
}

impl Headers {
    /// The header block as bytes: one `name: value` line per value, general
    /// fields first, then request fields, then entity fields, each group in
    /// its fixed order, then the other fields in the order of their first insertion.
    pub fn to_bytes(&self) -> (r: Vec<u8>)
        ensures
            r@ == vstd::utf8::encode_utf8(headers_text(self.entries())),
    {
        let mut res = String::new();
        let g = general_names();
        let q = request_names();
        let e = entity_names();
        push_group(&mut res, &self.hs, &g);
        push_group(&mut res, &self.hs, &q);
        push_group(&mut res, &self.hs, &e);
        let mut known = general_names();
        let mut more = request_names();
        known.append(&mut more);
        let mut last = entity_names();
        known.append(&mut last);
        assert(known.deep_view() =~= known_fields());
        push_rest(&mut res, &self.hs, &known);
        proof {
            assert(res@ =~= headers_text(self.entries()));
        }
        utf8_bytes(res.as_str())
    }
}

impl std::convert::From<Headers> for Vec<u8> {
    /// The header block as bytes (see `Headers::to_bytes`).
    fn from(h: Headers) -> (r: Vec<u8>)
        ensures
            r@ == vstd::utf8::encode_utf8(headers_text(h.entries())),
    {
        h.to_bytes()
    }
}

impl vstd::std_specs::convert::FromSpecImpl<Headers> for Vec<u8> {
    open spec fn obeys_from_spec() -> bool {
        false
    }

    open spec fn from_spec(h: Headers) -> Vec<u8> {
        choose|v: Vec<u8>| v@ == vstd::utf8::encode_utf8(headers_text(h.entries()))
    }
}

// ---------------------------------------------------------------------
// Normalizing twice
// ---------------------------------------------------------------------

proof fn lemma_capitalize_twice(p: Seq<char>)
    requires
        p.len() > 0,
        all_ascii(p),
    ensures
        capitalize(capitalize(p)) == capitalize(p),
        capitalize(p).len() > 0,
        all_ascii(capitalize(p)),
        lacks(p, '-') ==> lacks(capitalize(p), '-'),
{
    let t = p.drop_first();
    assert(all_ascii(t)) by {
        assert forall|i: int| 0 <= i < t.len() implies is_ascii_char(#[trigger] t[i]) by {
            assert(t[i] == p[i + 1]);
        }
    }
    let lt = ascii_lower(t);
    assert(all_ascii(lt)) by {
        assert forall|i: int| 0 <= i < lt.len() implies is_ascii_char(#[trigger] lt[i]) by {
            assert(is_ascii_char(t[i]));
        }
    }
    let u = ascii_upper_char(p[0]);
    assert(is_ascii_char(p[0]));
    assert(is_ascii_char(u));
    assert(ascii_upper_char(u) == u);
    let c = capitalize(p);
    assert(c =~= seq![u] + lt);
    assert(c.drop_first() =~= lt);
    assert(ascii_lower(lt) =~= lt);
    assert(capitalize(c) =~= c);
    assert(all_ascii(c)) by {
        assert forall|i: int| 0 <= i < c.len() implies is_ascii_char(#[trigger] c[i]) by {
            if i > 0 {
                assert(c[i] == lt[i - 1]);
            }
        }
    }
    if lacks(p, '-') {
        assert forall|j: int| 0 <= j < c.len() implies c[j] != '-' by {
            if j == 0 {
                assert(p[0] != '-');
            } else {
                assert(c[j] == ascii_lower_char(t[j - 1]));
                assert(t[j - 1] == p[j]);
            }
        }
    }
}

/// An ASCII field name, once normalized, stays as it is when normalized again.
proof fn lemma_normalize_field_twice(k: Seq<char>)
    requires
        all_ascii(k),
        field_ok(k),
    ensures
        normalize_field(normalize_field(k)) == normalize_field(k),
{
    let ps = split_on(k, '-');
    lemma_split_pieces_ascii(k);
    lemma_split_pieces_lack(k, '-');
    let cs = ps.map_values(|p: Seq<char>| capitalize(p));
    assert forall|i: int| 0 <= i < cs.len() implies lacks(#[trigger] cs[i], '-') && capitalize(
        cs[i],
    ) == cs[i] by {
        assert(ps[i].len() > 0 && is_ascii_char(ps[i][0]));
        assert(all_ascii(ps[i]));
        assert(lacks(ps[i], '-'));
        lemma_capitalize_twice(ps[i]);
    }
    assert(cs.len() > 0);
    lemma_join_split(cs, '-');
    assert(cs.map_values(|p: Seq<char>| capitalize(p)) =~= cs);
}

/// No two spaces in a row.
pub open spec fn single_spaced(x: Seq<char>) -> bool {
    forall|i: int| 0 <= i < x.len() - 1 ==> !(#[trigger] x[i] == ' ' && x[i + 1] == ' ')
}

/// A value as normalization leaves it: its only ASCII whitespace is single
/// spaces, and it neither starts nor ends with whitespace.
pub open spec fn value_normal(x: Seq<char>) -> bool {
    &&& spaces_only(x)
    &&& single_spaced(x)
    &&& x.len() > 0 ==> !is_unicode_ws(x[0]) && !is_unicode_ws(x.last())
}

/// The words of a prefix of a normal value, each preceded by a space, give
/// back the prefix after a space (without a trailing space).
proof fn lemma_word_scan_normal(p: Seq<char>)
    requires
        spaces_only(p),
        single_spaced(p),
        p.len() > 0 ==> p[0] != ' ',
    ensures
        ({
            let (ws, cur) = word_scan(p, false);
            &&& (cur.len() > 0 <==> (p.len() > 0 && p.last() != ' '))
            &&& prefix_each(ws, seq![' ']) + (if cur.len() > 0 {
                seq![' '] + cur
            } else {
                Seq::<char>::empty()
            }) == if p.len() == 0 {
                Seq::<char>::empty()
            } else if p.last() == ' ' {
                seq![' '] + p.drop_last()
            } else {
                seq![' '] + p
            }
        }),
    decreases p.len(),
{
    if p.len() > 0 {
        let q = p.drop_last();
        let c = p.last();
        assert(spaces_only(q)) by {
            assert forall|i: int| 0 <= i < q.len() implies #[trigger] q[i] == ' ' || !is_ascii_ws(
                q[i],
            ) by {
                assert(q[i] == p[i]);
            }
        }
        assert(single_spaced(q)) by {
            assert forall|i: int| 0 <= i < q.len() - 1 implies !(#[trigger] q[i] == ' ' && q[i
                + 1] == ' ') by {
                assert(q[i] == p[i] && q[i + 1] == p[i + 1]);
            }
        }
        if q.len() > 0 {
            assert(q[0] == p[0]);
        }
        lemma_word_scan_normal(q);
        let (ws, cur) = word_scan(q, false);
        let e = Seq::<char>::empty();
        if c == ' ' {
            assert(q.len() > 0);
            assert(p[p.len() - 2] == q.last());
            assert(q.last() != ' ');
            assert(word_scan(p, false) == (ws.push(cur), e));
            assert(ws.push(cur).drop_last() =~= ws);
            assert(prefix_each(ws.push(cur), seq![' ']) == prefix_each(ws, seq![' ']) + seq![' ']
                + cur);
            assert(p.drop_last() == q);
            assert(prefix_each(ws.push(cur), seq![' ']) + e =~= prefix_each(ws, seq![' ']) + (
            seq![' '] + cur));
        } else {
            assert(!is_ascii_ws(c));
            assert(word_scan(p, false) == (ws, cur.push(c)));
            if q.len() == 0 {
                assert(ws.len() == 0);
                assert(p =~= seq![c]);
                assert(prefix_each(ws, seq![' ']) + (seq![' '] + cur.push(c)) =~= seq![' '] + p);
            } else if q.last() == ' ' {
                assert(cur.len() == 0);
                assert(q =~= q.drop_last().push(' '));
                assert(p =~= q.push(c));
                assert(prefix_each(ws, seq![' ']) + (seq![' '] + cur.push(c)) =~= (seq![' ']
                    + q.drop_last()) + seq![' '] + seq![c]);
                assert((seq![' '] + q.drop_last()) + seq![' '] + seq![c] =~= seq![' '] + p);
            } else {
                assert(cur.len() > 0);
                assert(p =~= q.push(c));
                assert(prefix_each(ws, seq![' ']) + (seq![' '] + cur.push(c)) =~= (
                prefix_each(ws, seq![' ']) + (seq![' '] + cur)).push(c));
                assert((seq![' '] + q).push(c) =~= seq![' '] + p);
            }
        }
    }
}

/// A normal value is its own normalization.
proof fn lemma_normal_value_fixed(x: Seq<char>)
    requires
        value_normal(x),
    ensures
        normalize_value(x) == x,
{
    let e = Seq::<char>::empty();
    if x.len() == 0 {
        assert(word_scan(x, false) == (Seq::<Seq<char>>::empty(), e));
        assert(words(x, false) =~= Seq::<Seq<char>>::empty());
        assert(trim_start(e) == e);
        assert(trim_end(e) == e);
    } else {
        assert(x[0] != ' ');
        assert(x.last() != ' ');
        lemma_word_scan_normal(x);
        let (ws, cur) = word_scan(x, false);
        assert(cur.len() > 0);
        assert(words(x, false) == ws.push(cur));
        assert(ws.push(cur).drop_last() =~= ws);
        let j = prefix_each(ws.push(cur), seq![' ']);
        assert(j == prefix_each(ws, seq![' ']) + seq![' '] + cur);
        assert(j =~= seq![' '] + x);
        assert(is_unicode_ws(j[0]));
        assert(j.drop_first() =~= x);
        assert(trim_start(x) == x);
        assert(trim_start(j) == x);
        assert(trim_end(x) == x);
    }
}

/// Text without ASCII whitespace.
spec fn no_ascii_ws(w: Seq<char>) -> bool {
    forall|j: int| 0 <= j < w.len() ==> !is_ascii_ws(#[trigger] w[j])
}

proof fn lemma_word_scan_clean(s: Seq<char>)
    ensures
        forall|i: int|
            0 <= i < word_scan(s, false).0.len() ==> #[trigger] word_scan(s, false).0[i].len() > 0
                && no_ascii_ws(word_scan(s, false).0[i]),
        no_ascii_ws(word_scan(s, false).1),
    decreases s.len(),
{
    if s.len() > 0 {
        lemma_word_scan_clean(s.drop_last());
        let (ws, cur) = word_scan(s.drop_last(), false);
        let c = s.last();
        if !is_ascii_ws(c) {
            assert forall|j: int| 0 <= j < cur.push(c).len() implies !is_ascii_ws(
                #[trigger] cur.push(c)[j],
            ) by {
                if j < cur.len() {
                    assert(cur.push(c)[j] == cur[j]);
                }
            }
        } else {
            assert(no_ascii_ws(Seq::<char>::empty()));
        }
    }
}

proof fn lemma_prefix_each_single_spaced(ws: Seq<Seq<char>>)
    requires
        forall|i: int| 0 <= i < ws.len() ==> (#[trigger] ws[i]).len() > 0 && no_ascii_ws(ws[i]),
    ensures
        single_spaced(prefix_each(ws, seq![' '])),
        spaces_only(prefix_each(ws, seq![' '])),
        prefix_each(ws, seq![' ']).len() > 0 ==> prefix_each(ws, seq![' ']).last() != ' ',
    decreases ws.len(),
{
    if ws.len() > 0 {
        let pre = ws.drop_last();
        assert forall|i: int| 0 <= i < pre.len() implies (#[trigger] pre[i]).len() > 0
            && no_ascii_ws(pre[i]) by {
            assert(pre[i] == ws[i]);
        }
        lemma_prefix_each_single_spaced(pre);
        let a = prefix_each(pre, seq![' ']);
        let w = ws.last();
        assert(w.len() > 0 && no_ascii_ws(w));
        let r = a + seq![' '] + w;
        assert(r == prefix_each(ws, seq![' ']));
        assert forall|i: int| 0 <= i < r.len() - 1 implies !(#[trigger] r[i] == ' ' && r[i + 1]
            == ' ') by {
            if i < a.len() - 1 {
                assert(r[i] == a[i] && r[i + 1] == a[i + 1]);
            } else if i == a.len() - 1 {
                assert(r[i] == a.last());
            } else if i == a.len() {
                assert(r[i + 1] == w[0]);
                assert(!is_ascii_ws(w[0]));
            } else {
                assert(r[i] == w[i - a.len() - 1]);
                assert(!is_ascii_ws(w[i - a.len() - 1]));
            }
        }
        assert forall|i: int| 0 <= i < r.len() implies #[trigger] r[i] == ' ' || !is_ascii_ws(
            r[i],
        ) by {
            if i < a.len() {
                assert(r[i] == a[i]);
            } else if i > a.len() {
                assert(r[i] == w[i - a.len() - 1]);
                assert(!is_ascii_ws(w[i - a.len() - 1]));
            }
        }
        assert(r.last() == w.last());
        assert(!is_ascii_ws(w[w.len() - 1]));
    }
}

proof fn lemma_trim_start_normal(t: Seq<char>)
    requires
        single_spaced(t),
    ensures
        single_spaced(trim_start(t)),
        trim_start(t).len() > 0 ==> !is_unicode_ws(trim_start(t)[0]) && trim_start(t).last()
            == t.last(),
    decreases t.len(),
{
    if t.len() > 0 && is_unicode_ws(t[0]) {
        let u = t.drop_first();
        assert(single_spaced(u)) by {
            assert forall|i: int| 0 <= i < u.len() - 1 implies !(#[trigger] u[i] == ' ' && u[i
                + 1] == ' ') by {
                assert(u[i] == t[i + 1] && u[i + 1] == t[i + 2]);
            }
        }
        lemma_trim_start_normal(u);
        if trim_start(u).len() > 0 {
            assert(u.len() > 0);
            assert(u.last() == t.last());
        }
    }
}

proof fn lemma_trim_end_normal(t: Seq<char>)
    requires
        single_spaced(t),
    ensures
        single_spaced(trim_end(t)),
        trim_end(t).len() > 0 ==> !is_unicode_ws(trim_end(t).last()) && trim_end(t)[0] == t[0],
    decreases t.len(),
{
    if t.len() > 0 && is_unicode_ws(t.last()) {
        let u = t.drop_last();
        assert(single_spaced(u)) by {
            assert forall|i: int| 0 <= i < u.len() - 1 implies !(#[trigger] u[i] == ' ' && u[i
                + 1] == ' ') by {
                assert(u[i] == t[i] && u[i + 1] == t[i + 1]);
            }
        }
        lemma_trim_end_normal(u);
        if trim_end(u).len() > 0 {
            assert(u[0] == t[0]);
        }
    }
}

/// Every normalized value is normal.
proof fn lemma_normalized_value_normal(s: Seq<char>)
    ensures
        value_normal(normalize_value(s)),
{
    lemma_word_scan_clean(s);
    let ws = words(s, false);
    let (w0, cur) = word_scan(s, false);
    assert forall|i: int| 0 <= i < ws.len() implies (#[trigger] ws[i]).len() > 0 && no_ascii_ws(
        ws[i],
    ) by {
        if i < w0.len() {
            assert(ws[i] == w0[i]);
        }
    }
    lemma_prefix_each_single_spaced(ws);
    let j = prefix_each(ws, seq![' ']);
    lemma_trim_start_normal(j);
    lemma_trim_end_normal(trim_start(j));
    law_normalized_value_is_one_line(s);
}

/// Field names that are their own normalization, each with values that are
/// their own normalization.
pub open spec fn fields_normalized(m: Map<Seq<char>, Seq<Seq<char>>>) -> bool {
    forall|k: Seq<char>|
        #[trigger] m.contains_key(k) ==> normalize_field(k) == k && forall|i: int|
            0 <= i < m[k].len() ==> normalize_value(#[trigger] m[k][i]) == m[k][i]
}

/// Normalizing is done once for all: a normalized value, and a normalized
/// ASCII field name, stay as they are when normalized again. So `insert`
/// and `set` with ASCII field names keep every stored name and value
/// normalized (and a new header set has none to begin with).
pub proof fn law_updates_keep_fields_normalized(
    m: Map<Seq<char>, Seq<Seq<char>>>,
    key: Seq<char>,
    value: Seq<char>,
)
    requires
        fields_normalized(m),
        all_ascii(key),
        field_ok(key),
    ensures
        normalize_field(normalize_field(key)) == normalize_field(key),
        normalize_value(normalize_value(value)) == normalize_value(value),
        fields_normalized(
            m.insert(
                normalize_field(key),
                added_values(m, normalize_field(key), normalize_value(value)),
            ),
        ),
        fields_normalized(m.insert(normalize_field(key), seq![normalize_value(value)])),
        fields_normalized(Map::<Seq<char>, Seq<Seq<char>>>::empty()),
{
    lemma_normalize_field_twice(key);
    lemma_normalized_value_normal(value);
    lemma_normal_value_fixed(normalize_value(value));
    let nk = normalize_field(key);
    let nv = normalize_value(value);
    let a = m.insert(nk, added_values(m, nk, nv));
    let p = m.insert(nk, seq![nv]);
    assert forall|k: Seq<char>| #[trigger] a.contains_key(k) implies normalize_field(k) == k
        && forall|i: int| 0 <= i < a[k].len() ==> normalize_value(#[trigger] a[k][i]) == a[k][i] by {
        if k == nk {
            assert forall|i: int| 0 <= i < a[k].len() implies normalize_value(
                #[trigger] a[k][i],
            ) == a[k][i] by {
                if m.contains_key(k) && i < m[k].len() {
                    assert(a[k][i] == m[k][i]);
                }
            }
        }
    }
    assert forall|k: Seq<char>| #[trigger] p.contains_key(k) implies normalize_field(k) == k
        && forall|i: int| 0 <= i < p[k].len() ==> normalize_value(#[trigger] p[k][i]) == p[k][i] by {
    }
}

// ---------------------------------------------------------------------
// What normalizing and writing keep
// ---------------------------------------------------------------------

proof fn lemma_word_scan_non_ws(s: Seq<char>)
    ensures
        non_ws(s) == non_ws(concat_all(word_scan(s, false).0)) + non_ws(word_scan(s, false).1),
    decreases s.len(),
{
    let e = Seq::<char>::empty();
    if s.len() == 0 {
        assert(non_ws(e) + non_ws(e) =~= e);
    } else {
        let t = s.drop_last();
        let c = s.last();
        lemma_word_scan_non_ws(t);
        let (ws, cur) = word_scan(t, false);
        assert(s =~= t + seq![c]);
        lemma_non_ws_add(t, seq![c]);
        assert(seq![c].drop_last() =~= e);
        if is_ascii_ws(c) {
            assert(is_unicode_ws(c));
            assert(non_ws(seq![c]) == non_ws(e));
            if cur.len() > 0 {
                assert(ws.push(cur).drop_last() =~= ws);
                assert(concat_all(ws.push(cur)) == concat_all(ws) + cur);
                lemma_non_ws_add(concat_all(ws), cur);
            }
            assert(non_ws(t) + non_ws(seq![c]) =~= non_ws(t));
            assert(non_ws(concat_all(ws)) + non_ws(cur) + non_ws(e) =~= non_ws(concat_all(ws))
                + non_ws(cur));
        } else {
            assert(cur.push(c) =~= cur + seq![c]);
            lemma_non_ws_add(cur, seq![c]);
            assert(non_ws(concat_all(ws)) + non_ws(cur) + non_ws(seq![c]) =~= non_ws(concat_all(ws))
                + (non_ws(cur) + non_ws(seq![c])));
        }
    }
}

proof fn lemma_prefix_each_non_ws(ws: Seq<Seq<char>>)
    ensures
        non_ws(prefix_each(ws, seq![' '])) == non_ws(concat_all(ws)),
    decreases ws.len(),
{
    if ws.len() > 0 {
        let pre = ws.drop_last();
        let w = ws.last();
        lemma_prefix_each_non_ws(pre);
        let a = prefix_each(pre, seq![' ']);
        lemma_non_ws_add(a + seq![' '], w);
        lemma_non_ws_add(a, seq![' ']);
        assert(seq![' '].drop_last() =~= Seq::<char>::empty());
        assert(non_ws(seq![' ']) == non_ws(Seq::<char>::empty()));
        assert(non_ws(a) + non_ws(seq![' ']) =~= non_ws(a));
        lemma_non_ws_add(concat_all(pre), w);
    }
}

proof fn lemma_trim_non_ws(t: Seq<char>)
    ensures
        non_ws(trim_start(t)) == non_ws(t),
        non_ws(trim_end(t)) == non_ws(t),
    decreases t.len(),
{
    if t.len() > 0 {
        lemma_trim_non_ws(t.drop_first());
        lemma_trim_non_ws(t.drop_last());
        if is_unicode_ws(t[0]) {
            assert(t =~= seq![t[0]] + t.drop_first());
            lemma_non_ws_add(seq![t[0]], t.drop_first());
            assert(seq![t[0]].drop_last() =~= Seq::<char>::empty());
            assert(seq![t[0]].last() == t[0]);
            assert(non_ws(seq![t[0]]) == non_ws(Seq::<char>::empty()));
            assert(non_ws(seq![t[0]]) =~= Seq::<char>::empty());
            assert(non_ws(seq![t[0]]) + non_ws(t.drop_first()) =~= non_ws(t.drop_first()));
        }
    }
}

/// Normalizing a value drops whitespace only: the characters that are not
/// whitespace are those of the original value, all of them, in order.
pub proof fn law_normalized_value_keeps_text(s: Seq<char>)
    ensures
        non_ws(normalize_value(s)) == non_ws(s),
{
    lemma_word_scan_non_ws(s);
    let (ws, cur) = word_scan(s, false);
    let w = words(s, false);
    if cur.len() > 0 {
        assert(ws.push(cur).drop_last() =~= ws);
        assert(concat_all(w) == concat_all(ws) + cur);
        lemma_non_ws_add(concat_all(ws), cur);
    } else {
        assert(cur =~= Seq::<char>::empty());
        assert(non_ws(concat_all(ws)) + non_ws(cur) =~= non_ws(concat_all(ws)));
    }
    lemma_prefix_each_non_ws(w);
    let j = prefix_each(w, seq![' ']);
    lemma_trim_non_ws(j);
    lemma_trim_non_ws(trim_start(j));
}

/// The wire lines of a field: one `name: value` line, ended by CRLF, per
/// value, in the order of the values. A field without values writes nothing.
pub proof fn law_entry_lines(k: Seq<char>, vs: Seq<Seq<char>>, x: Seq<char>)
    ensures
        entry_text(k, Seq::<Seq<char>>::empty()) == Seq::<char>::empty(),
        entry_text(k, vs.push(x)) == entry_text(k, vs) + k + seq![':', ' '] + x + seq!['\r', '\n'],
{
    assert(vs.push(x).drop_last() =~= vs);
    assert(vs.push(x).last() == x);
}

proof fn lemma_key_index_push_other(es: HeaderEntries, e: (Seq<char>, Seq<Seq<char>>), k: Seq<char>)
    requires
        e.0 != k,
    ensures
        key_index(es.push(e), k) == key_index(es, k),
    decreases es.len(),
{
    if es.len() > 0 {
        assert(es.push(e)[0] == es[0]);
        if es[0].0 != k {
            assert(es.push(e).drop_first() =~= es.drop_first().push(e));
            lemma_key_index_push_other(es.drop_first(), e, k);
        }
    } else {
        let empty = Seq::<(Seq<char>, Seq<Seq<char>>)>::empty();
        assert(es.push(e).drop_first() =~= empty);
        assert(es.push(e)[0] == e);
        assert(key_index(empty, k) is None);
    }
}

proof fn lemma_group_text_push_other(
    es: HeaderEntries,
    e: (Seq<char>, Seq<Seq<char>>),
    ks: Seq<Seq<char>>,
)
    requires
        !ks.contains(e.0),
    ensures
        group_text(es.push(e), ks) == group_text(es, ks),
    decreases ks.len(),
{
    if ks.len() > 0 {
        let pre = ks.drop_last();
        assert(!pre.contains(e.0)) by {
            if pre.contains(e.0) {
                let j = choose|j: int| 0 <= j < pre.len() && pre[j] == e.0;
                assert(ks[j] == e.0);
            }
        }
        lemma_group_text_push_other(es, e, pre);
        assert(ks[ks.len() - 1] != e.0);
        lemma_key_index_push_other(es, e, ks.last());
        lemma_key_index(es, ks.last());
        match key_index(es, ks.last()) {
            Some(i) => assert(es.push(e)[i] == es[i]),
            None => {},
        }
    }
}

/// A field of a new name that is none of the known fields goes last on the
/// wire: its one line is written after all that was written before.
pub proof fn law_new_other_field_goes_last(es: HeaderEntries, k: Seq<char>, v: Seq<char>)
    requires
        key_index(es, k) is None,
        !known_fields().contains(k),
    ensures
        headers_text(headers_add(es, k, v)) == headers_text(es) + k + seq![':', ' '] + v + seq![
            '\r',
            '\n',
        ],
{
    let e = (k, seq![v]);
    let n = es.push(e);
    assert(headers_add(es, k, v) == n);
    assert(!general_fields().contains(k)) by {
        if general_fields().contains(k) {
            let j = choose|j: int| 0 <= j < general_fields().len() && general_fields()[j] == k;
            assert(known_fields()[j] == k);
        }
    }
    assert(!request_fields().contains(k)) by {
        if request_fields().contains(k) {
            let j = choose|j: int| 0 <= j < request_fields().len() && request_fields()[j] == k;
            assert(known_fields()[general_fields().len() + j] == k);
        }
    }
    assert(!entity_fields().contains(k)) by {
        if entity_fields().contains(k) {
            let j = choose|j: int| 0 <= j < entity_fields().len() && entity_fields()[j] == k;
            assert(known_fields()[general_fields().len() + request_fields().len() + j] == k);
        }
    }
    lemma_group_text_push_other(es, e, general_fields());
    lemma_group_text_push_other(es, e, request_fields());
    lemma_group_text_push_other(es, e, entity_fields());
    assert(n.drop_last() =~= es);
    assert(n.last() == e);
    law_entry_lines(k, Seq::<Seq<char>>::empty(), v);
    assert(Seq::<Seq<char>>::empty().push(v) =~= seq![v]);
    let g = group_text(es, general_fields()) + group_text(es, request_fields()) + group_text(
        es,
        entity_fields(),
    );
    assert(headers_text(n) == g + (rest_text(es, known_fields()) + entry_text(k, seq![v])));
    assert(headers_text(n) =~= headers_text(es) + k + seq![':', ' '] + v + seq!['\r', '\n']);
}

} // verus!
