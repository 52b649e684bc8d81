//! URIs after RFC 3986: parsing (`Uri::try_from`), printing
//! (`Uri::to_string`), query strings and the constrained path types.
use vstd::prelude::*;

use crate::text::{
    chars_eq, chars_lt, chars_of, decimal_text, find, find_char,
    join, lemma_find_char, lemma_find_char_at, lemma_join_push, lemma_plain_decimal, lemma_seq_lt_irreflexive, plain_decimal, lemma_seq_lt_total, lemma_seq_lt_transitive, lemma_split_join,
    parse_u32, parse_u32_chars, push_all, push_char, push_decimal, push_str, seq_lt, split_chars,
    split_on, split_once, starts_with, string_of, string_of_range, sub_chars,
};

verus! {

broadcast use crate::text::lemma_char_vec_deep_view;

// ---------------------------------------------------------------------
// Errors
// ---------------------------------------------------------------------

/// Why a string is not a URI.
#[derive(Debug, Clone, Copy, PartialEq, Eq, Structural)]
pub enum UriError {
    /// "uri must contain at least one ':'"
    MissingColon,
    /// The scheme does not match `^[a-zA-Z][a-zA-Z0-9+-.]*$`.
    InvalidScheme,
    /// The text after `]` in the host is not a decimal number.
    InvalidBracketedPort,
    /// "port cannot be zero"
    ZeroBracketedPort,
    /// "error parsing port number"
    InvalidPort,
    /// "port must be nonzero if specified"
    ZeroPort,
}

/// A value refused by the constraint of a constrained string type; it holds the value.
#[derive(Debug)]
pub struct ConstructionError(pub String);

// ---------------------------------------------------------------------
// Constrained strings
// ---------------------------------------------------------------------

/// The regular expression every scheme matches.
pub open spec fn scheme_pattern() -> Seq<char> {
    "^[a-zA-Z][a-zA-Z0-9+-.]*$"@
}

/// Whether `text` matches the regular expression `pattern`, as the `regex`
/// crate decides it; `None` when the pattern does not compile.
pub uninterp spec fn regex_is_match(pattern: Seq<char>, text: Seq<char>) -> Option<bool>;

/// An ASCII letter.
pub open spec fn is_ascii_letter(c: char) -> bool {
    ('a' <= c && c <= 'z') || ('A' <= c && c <= 'Z')
}

/// A character of the class `[a-zA-Z0-9+-.]`: an ASCII letter or digit, or a
/// character from `+` to `.` (the class reads `+-.` as that range, so `,` is
/// in it too).
pub open spec fn is_scheme_char(c: char) -> bool {
    is_ascii_letter(c) || ('0' <= c && c <= '9') || ('+' <= c && c <= '.')
}

/// Text that the scheme pattern matches: as `^` and `$` anchor the match to
/// the whole text, an ASCII letter followed by characters of the class.
pub open spec fn scheme_ok(s: Seq<char>) -> bool {
    &&& s.len() > 0
    &&& is_ascii_letter(s[0])
    &&& forall|i: int| 1 <= i < s.len() ==> is_scheme_char(#[trigger] s[i])
}

/// Compiles `pattern` with `regex::Regex::new` and matches `text` against it
/// with `Regex::is_match`. The contract names the outcome for every pattern
/// (`None` stands for a pattern that does not compile) and, for the scheme
/// pattern, states it as the crate documents anchors, classes and
/// repetition: that pattern compiles, and matches exactly the texts of
/// `scheme_ok`.
#[verifier::external_body]
fn regex_match(pattern: &str, text: &str) -> (r: Option<bool>)
    ensures
        r == regex_is_match(pattern@, text@),
        pattern@ == scheme_pattern() ==> r == Some(scheme_ok(text@)),
{
    match regex::Regex::new(pattern) {
        Ok(re) => Some(re.is_match(text)),
        Err(_) => None,
    }
}

/// The text before the first `/`, or all of it.
pub open spec fn first_segment(s: Seq<char>) -> Seq<char> {
    match split_once(s, '/') {
        Some((a, _)) => a,
        None => s,
    }
}

/// A path that does not start with `/`: its first segment is not empty.
pub open spec fn rootless_ok(s: Seq<char>) -> bool {
    first_segment(s).len() > 0
}

/// A path whose first segment holds no `:`.
pub open spec fn noscheme_ok(s: Seq<char>) -> bool {
    find_char(first_segment(s), ':') is None
}

/// A path that starts with `/` but not with `//`.
pub open spec fn absolute_ok(s: Seq<char>) -> bool {
    starts_with(s, '/') && !(s.len() >= 2 && s[1] == '/')
}

/// A path that is empty or starts with `/`.
pub open spec fn abempty_ok(s: Seq<char>) -> bool {
    s.len() == 0 || s[0] == '/'
}

fn first_segment_chars(v: &Vec<char>) -> (r: Vec<char>)
    ensures
        r@ == first_segment(v@),
{
    match find(v, '/') {
        Some(i) => sub_chars(v, 0, i),
        None => sub_chars(v, 0, v.len()),
    }
}

/// A URI scheme.
#[derive(Debug)]
pub struct Scheme {
    value: String,
}

impl View for Scheme {
    type V = Seq<char>;

    closed spec fn view(&self) -> Seq<char> {
        self.value@
    }
}

impl Scheme {
    #[verifier::type_invariant]
    spec fn inv(self) -> bool {
        scheme_ok(self.value@)
    }

    /// Accepts `s` when it is a valid scheme.
    pub fn new(s: String) -> (r: Result<Scheme, ConstructionError>)
        ensures
            match r {
                Ok(x) => scheme_ok(s@) && x@ == s@,
                Err(e) => !scheme_ok(s@) && e.0@ == s@,
            },
    {
        let matched = regex_match("^[a-zA-Z][a-zA-Z0-9+-.]*$", s.as_str());
        match matched {
            Some(true) => Ok(Scheme { value: s }),
            _ => Err(ConstructionError(s)),
        }
    }

    /// The scheme text.
    pub fn get(&self) -> (r: &String)
        ensures
            r@ == self@,
    {
        &self.value
    }
}

/// A path that does not start with `/` and whose first segment is not empty.
#[derive(Debug)]
pub struct Rootless {
    value: String,
}

impl View for Rootless {
    type V = Seq<char>;

    closed spec fn view(&self) -> Seq<char> {
        self.value@
    }
}

impl Rootless {
    #[verifier::type_invariant]
    spec fn inv(self) -> bool {
        rootless_ok(self.value@)
    }

    /// Accepts `s` when its first segment is not empty.
    pub fn new(s: String) -> (r: Result<Rootless, ConstructionError>)
        ensures
            match r {
                Ok(x) => rootless_ok(s@) && x@ == s@,
                Err(e) => !rootless_ok(s@) && e.0@ == s@,
            },
    {
        let v = chars_of(s.as_str());
        let seg = first_segment_chars(&v);
        if seg.len() == 0 {
            Err(ConstructionError(s))
        } else {
            Ok(Rootless { value: s })
        }
    }

    /// The path text.
    pub fn get(&self) -> (r: &String)
        ensures
            r@ == self@,
    {
        &self.value
    }
}

/// A path whose first segment holds no `:`.
#[derive(Debug)]
pub struct NoScheme {
    value: String,
}

impl View for NoScheme {
    type V = Seq<char>;

    closed spec fn view(&self) -> Seq<char> {
        self.value@
    }
}

impl NoScheme {
    #[verifier::type_invariant]
    spec fn inv(self) -> bool {
        noscheme_ok(self.value@)
    }

    /// Accepts `s` when its first segment holds no `:`.
    pub fn new(s: String) -> (r: Result<NoScheme, ConstructionError>)
        ensures
            match r {
                Ok(x) => noscheme_ok(s@) && x@ == s@,
                Err(e) => !noscheme_ok(s@) && e.0@ == s@,
            },
    {
        let v = chars_of(s.as_str());
        let seg = first_segment_chars(&v);
        match find(&seg, ':') {
            Some(_) => Err(ConstructionError(s)),
            None => Ok(NoScheme { value: s }),
        }
    }

    /// The path text.
    pub fn get(&self) -> (r: &String)
        ensures
            r@ == self@,
    {
        &self.value
    }
}

/// A path that starts with `/` but not with `//`.
#[derive(Debug)]
pub struct Absolute {
    value: String,
}

impl View for Absolute {
    type V = Seq<char>;

    closed spec fn view(&self) -> Seq<char> {
        self.value@
    }
}

impl Absolute {
    #[verifier::type_invariant]
    spec fn inv(self) -> bool {
        absolute_ok(self.value@)
    }

    /// Accepts `s` when it starts with `/` but not with `//`.
    pub fn new(s: String) -> (r: Result<Absolute, ConstructionError>)
        ensures
            match r {
                Ok(x) => absolute_ok(s@) && x@ == s@,
                Err(e) => !absolute_ok(s@) && e.0@ == s@,
            },
    {
        let v = chars_of(s.as_str());
        if v.len() > 0 && v[0] == '/' && !(v.len() >= 2 && v[1] == '/') {
            Ok(Absolute { value: s })
        } else {
            Err(ConstructionError(s))
        }
    }

    /// The path text.
    pub fn get(&self) -> (r: &String)
        ensures
            r@ == self@,
    {
        &self.value
    }
}

/// A path that is empty or starts with `/`.
#[derive(Debug)]
pub struct AbEmpty {
    value: String,
}

impl View for AbEmpty {
    type V = Seq<char>;

    closed spec fn view(&self) -> Seq<char> {
        self.value@
    }
}

impl AbEmpty {
    #[verifier::type_invariant]
    spec fn inv(self) -> bool {
        abempty_ok(self.value@)
    }

    /// Accepts `s` when it is empty or starts with `/`.
    pub fn new(s: String) -> (r: Result<AbEmpty, ConstructionError>)
        ensures
            match r {
                Ok(x) => abempty_ok(s@) && x@ == s@,
                Err(e) => !abempty_ok(s@) && e.0@ == s@,
            },
    {
        let v = chars_of(s.as_str());
        if v.len() == 0 || v[0] == '/' {
            Ok(AbEmpty { value: s })
        } else {
            Err(ConstructionError(s))
        }
    }

    /// The path text.
    pub fn get(&self) -> (r: &String)
        ensures
            r@ == self@,
    {
        &self.value
    }
}

// ---------------------------------------------------------------------
// Query strings
// ---------------------------------------------------------------------

/// The entries of a query: keys in increasing order, each with its values
/// in the order they were added (`None` for a key without `=`).
pub type QueryModel = Seq<(Seq<char>, Seq<Option<Seq<char>>>)>;

/// Keys strictly increasing, and every key has at least one value.
pub open spec fn query_wf(es: QueryModel) -> bool {
    &&& forall|i: int, j: int| 0 <= i < j < es.len() ==> seq_lt(es[i].0, es[j].0)
    &&& forall|i: int| 0 <= i < es.len() ==> (#[trigger] es[i]).1.len() > 0
}

/// The number of leading entries whose key sorts before `k`.
pub open spec fn lower_bound(es: QueryModel, k: Seq<char>) -> int
    decreases es.len(),
{
    if es.len() == 0 {
        0
    } else if seq_lt(es[0].0, k) {
        1 + lower_bound(es.drop_first(), k)
    } else {
        0
    }
}

/// The value lists of key `k` in `es`, if `k` has an entry.
pub open spec fn query_lookup(es: QueryModel, k: Seq<char>) -> Option<Seq<Option<Seq<char>>>> {
    let p = lower_bound(es, k);
    if p < es.len() && es[p].0 == k {
        Some(es[p].1)
    } else {
        None
    }
}

/// `Query::add`: `v` appended to the values of `k`, a new entry in order if `k` had none.
pub open spec fn query_add(es: QueryModel, k: Seq<char>, v: Option<Seq<char>>) -> QueryModel {
    let p = lower_bound(es, k);
    if p < es.len() && es[p].0 == k {
        es.update(p, (k, es[p].1.push(v)))
    } else {
        es.insert(p, (k, seq![v]))
    }
}

/// `Query::set`: the values of `k` replaced by `v` alone.
pub open spec fn query_set(es: QueryModel, k: Seq<char>, v: Option<Seq<char>>) -> QueryModel {
    let p = lower_bound(es, k);
    if p < es.len() && es[p].0 == k {
        es.update(p, (k, seq![v]))
    } else {
        es.insert(p, (k, seq![v]))
    }
}

/// One `key=value` or `key` item of a query string, as the parser adds it.
pub open spec fn add_item(es: QueryModel, item: Seq<char>) -> QueryModel {
    match split_once(item, '=') {
        Some((l, r)) => query_add(es, l, Some(r)),
        None => query_add(es, item, None),
    }
}

/// The query built from the items of a query string, in order.
pub open spec fn query_from(items: Seq<Seq<char>>) -> QueryModel
    decreases items.len(),
{
    if items.len() == 0 {
        seq![]
    } else {
        add_item(query_from(items.drop_last()), items.last())
    }
}

/// The key of one `key=value` or `key` item.
pub open spec fn item_key(item: Seq<char>) -> Seq<char> {
    match split_once(item, '=') {
        Some((l, _)) => l,
        None => item,
    }
}

/// Items whose keys never sort before the key of an earlier item.
pub open spec fn items_in_key_order(items: Seq<Seq<char>>) -> bool {
    forall|i: int, j: int|
        0 <= i < j < items.len() ==> !seq_lt(
            #[trigger] item_key(items[j]),
            #[trigger] item_key(items[i]),
        )
}

/// The text of one value of key `k`.
pub open spec fn item_text(k: Seq<char>, v: Option<Seq<char>>) -> Seq<char> {
    match v {
        Some(x) => k + seq!['='] + x,
        None => k,
    }
}

/// The items of a query, entry by entry.
pub open spec fn query_items(es: QueryModel) -> Seq<Seq<char>>
    decreases es.len(),
{
    if es.len() == 0 {
        seq![]
    } else {
        query_items(es.drop_last()) + es.last().1.map_values(
            |v: Option<Seq<char>>| item_text(es.last().0, v),
        )
    }
}

/// The query string: the items joined by `&`.
pub open spec fn query_text(es: QueryModel) -> Seq<char> {
    join(query_items(es), seq!['&'])
}

proof fn lemma_lower_bound(es: QueryModel, k: Seq<char>)
    ensures
        0 <= lower_bound(es, k) <= es.len(),
        forall|j: int| 0 <= j < lower_bound(es, k) ==> seq_lt(#[trigger] es[j].0, k),
        lower_bound(es, k) < es.len() ==> !seq_lt(es[lower_bound(es, k)].0, k),
    decreases es.len(),
{
    if es.len() > 0 && seq_lt(es[0].0, k) {
        let t = es.drop_first();
        lemma_lower_bound(t, k);
        assert forall|j: int| 0 <= j < lower_bound(es, k) implies seq_lt(#[trigger] es[j].0, k) by {
            if j > 0 {
                assert(es[j] == t[j - 1]);
            }
        }
        if lower_bound(es, k) < es.len() {
            assert(es[lower_bound(es, k)] == t[lower_bound(t, k)]);
        }
    }
}

proof fn lemma_lower_bound_at(es: QueryModel, k: Seq<char>, p: int)
    requires
        0 <= p <= es.len(),
        forall|j: int| 0 <= j < p ==> seq_lt(#[trigger] es[j].0, k),
        p < es.len() ==> !seq_lt(es[p].0, k),
    ensures
        lower_bound(es, k) == p,
    decreases p,
{
    if p > 0 {
        let t = es.drop_first();
        assert forall|j: int| 0 <= j < p - 1 implies seq_lt(#[trigger] t[j].0, k) by {
            assert(t[j] == es[j + 1]);
        }
        if p - 1 < t.len() {
            assert(t[p - 1] == es[p]);
        }
        assert(seq_lt(es[0].0, k));
        lemma_lower_bound_at(t, k, p - 1);
    }
}

/// Adding or setting a value keeps a query well formed: keys stay sorted
/// without repetition and every key keeps a value.
pub proof fn law_query_updates_keep_order(es: QueryModel, k: Seq<char>, v: Option<Seq<char>>)
    requires
        query_wf(es),
    ensures
        query_wf(query_add(es, k, v)),
        query_wf(query_set(es, k, v)),
        query_add(es, k, v).len() > 0,
        query_set(es, k, v).len() > 0,
{
    lemma_lower_bound(es, k);
    let p = lower_bound(es, k);
    if !(p < es.len() && es[p].0 == k) {
        let n = es.insert(p, (k, seq![v]));
        if p < es.len() {
            lemma_seq_lt_total(es[p].0, k);
        }
        assert forall|i: int, j: int| 0 <= i < j < n.len() implies seq_lt(n[i].0, n[j].0) by {
            if j < p {
                assert(n[i] == es[i] && n[j] == es[j]);
            } else if j == p {
                assert(n[i] == es[i]);
            } else if i == p {
                assert(n[j] == es[j - 1]);
                if j - 1 > p {
                    lemma_seq_lt_transitive(k, es[p].0, es[j - 1].0);
                }
            } else if i < p {
                assert(n[i] == es[i] && n[j] == es[j - 1]);
            } else {
                assert(n[i] == es[i - 1] && n[j] == es[j - 1]);
            }
        }
        assert forall|i: int| 0 <= i < n.len() implies (#[trigger] n[i]).1.len() > 0 by {
            if i < p {
                assert(n[i] == es[i]);
            } else if i > p {
                assert(n[i] == es[i - 1]);
            }
        }
    } else {
        let a = query_add(es, k, v);
        let s = query_set(es, k, v);
        assert forall|i: int, j: int| 0 <= i < j < a.len() implies seq_lt(a[i].0, a[j].0) by {
            assert(a[i].0 == es[i].0 && a[j].0 == es[j].0);
        }
        assert forall|i: int, j: int| 0 <= i < j < s.len() implies seq_lt(s[i].0, s[j].0) by {
            assert(s[i].0 == es[i].0 && s[j].0 == es[j].0);
        }
        assert forall|i: int| 0 <= i < a.len() implies (#[trigger] a[i]).1.len() > 0 by {
            if i != p {
                assert(a[i] == es[i]);
            }
        }
        assert forall|i: int| 0 <= i < s.len() implies (#[trigger] s[i]).1.len() > 0 by {
            if i != p {
                assert(s[i] == es[i]);
            }
        }
    }
}

/// After adding `v` under `k`, the values of `k` are its earlier values
/// followed by `v`; after setting, they are `v` alone.
pub proof fn law_query_add_then_lookup(es: QueryModel, k: Seq<char>, v: Option<Seq<char>>)
    requires
        query_wf(es),
    ensures
        query_lookup(query_add(es, k, v), k) == Some(
            match query_lookup(es, k) {
                Some(vs) => vs.push(v),
                None => seq![v],
            },
        ),
        query_lookup(query_set(es, k, v), k) == Some(seq![v]),
{
    lemma_lower_bound(es, k);
    let p = lower_bound(es, k);
    let a = query_add(es, k, v);
    let s = query_set(es, k, v);
    lemma_seq_lt_irreflexive(k);
    assert forall|j: int| 0 <= j < p implies seq_lt(#[trigger] a[j].0, k) && seq_lt(s[j].0, k) by {
        assert(a[j] == es[j] && s[j] == es[j]);
    }
    lemma_lower_bound_at(a, k, p);
    lemma_lower_bound_at(s, k, p);
}

proof fn lemma_seq_lt_asymmetric(a: Seq<char>, b: Seq<char>)
    requires
        seq_lt(a, b),
    ensures
        !seq_lt(b, a),
{
    if seq_lt(b, a) {
        lemma_seq_lt_transitive(a, b, a);
        lemma_seq_lt_irreflexive(a);
    }
}

/// In a well-formed query, the values looked up under a key are those of its entry.
proof fn lemma_query_lookup_at(es: QueryModel, k: Seq<char>, i: int)
    requires
        query_wf(es),
        0 <= i < es.len(),
        es[i].0 == k,
    ensures
        query_lookup(es, k) == Some(es[i].1),
{
    lemma_lower_bound(es, k);
    lemma_seq_lt_irreflexive(k);
    let p = lower_bound(es, k);
    if p < i {
        assert(seq_lt(es[p].0, es[i].0));
    }
    if i < p {
        assert(seq_lt(es[i].0, k));
    }
}

/// Where a key's entry is in a well-formed query: its index when the key
/// has values, and no entry with that key otherwise.
proof fn lemma_query_lookup_index(es: QueryModel, k: Seq<char>) -> (i: int)
    requires
        query_wf(es),
    ensures
        query_lookup(es, k) is Some ==> 0 <= i < es.len() && es[i].0 == k,
        query_lookup(es, k) is None ==> forall|j: int| 0 <= j < es.len() ==> (#[trigger] es[j]).0 != k,
{
    lemma_lower_bound(es, k);
    lemma_seq_lt_irreflexive(k);
    let q = lower_bound(es, k);
    if query_lookup(es, k) is None {
        assert forall|j: int| 0 <= j < es.len() implies (#[trigger] es[j]).0 != k by {
            if j > q && es[j].0 == k {
                assert(seq_lt(es[q].0, es[j].0));
            }
            if j < q {
                assert(seq_lt(es[j].0, k));
            }
        }
    }
    q
}

proof fn lemma_query_lookup_none(es: QueryModel, k: Seq<char>)
    requires
        forall|i: int| 0 <= i < es.len() ==> (#[trigger] es[i]).0 != k,
    ensures
        query_lookup(es, k) is None,
{
    lemma_lower_bound(es, k);
}

/// Adding or setting a value under a key leaves every other key with the
/// values it had (and a key that had none without any).
pub proof fn law_query_updates_keep_other_keys(
    es: QueryModel,
    k: Seq<char>,
    v: Option<Seq<char>>,
    k2: Seq<char>,
)
    requires
        query_wf(es),
        k2 != k,
    ensures
        query_lookup(query_add(es, k, v), k2) == query_lookup(es, k2),
        query_lookup(query_set(es, k, v), k2) == query_lookup(es, k2),
{
    law_query_updates_keep_order(es, k, v);
    lemma_lower_bound(es, k);
    let p = lower_bound(es, k);
    let a = query_add(es, k, v);
    let t = query_set(es, k, v);
    let i = lemma_query_lookup_index(es, k2);
    if p < es.len() && es[p].0 == k {
        assert(a.len() == es.len() && t.len() == es.len());
        if query_lookup(es, k2) is Some {
            assert(i != p);
            assert(a[i] == es[i] && t[i] == es[i]);
            lemma_query_lookup_at(es, k2, i);
            lemma_query_lookup_at(a, k2, i);
            lemma_query_lookup_at(t, k2, i);
        } else {
            assert forall|j: int| 0 <= j < a.len() implies (#[trigger] a[j]).0 != k2 by {
                if j != p {
                    assert(a[j] == es[j]);
                }
            }
            assert forall|j: int| 0 <= j < t.len() implies (#[trigger] t[j]).0 != k2 by {
                if j != p {
                    assert(t[j] == es[j]);
                }
            }
            lemma_query_lookup_none(a, k2);
            lemma_query_lookup_none(t, k2);
        }
    } else {
        assert(a == es.insert(p, (k, seq![v])));
        assert(t == a);
        if query_lookup(es, k2) is Some {
            let j = if i < p {
                i
            } else {
                i + 1
            };
            assert(a[j] == es[i]);
            lemma_query_lookup_at(es, k2, i);
            lemma_query_lookup_at(a, k2, j);
        } else {
            assert forall|j: int| 0 <= j < a.len() implies (#[trigger] a[j]).0 != k2 by {
                if j < p {
                    assert(a[j] == es[j]);
                } else if j > p {
                    assert(a[j] == es[j - 1]);
                }
            }
            lemma_query_lookup_none(a, k2);
        }
    }
}

proof fn lemma_query_from_wf(items: Seq<Seq<char>>)
    ensures
        query_wf(query_from(items)),
        items.len() > 0 ==> query_from(items).len() > 0,
    decreases items.len(),
{
    if items.len() > 0 {
        lemma_query_from_wf(items.drop_last());
        let es = query_from(items.drop_last());
        let x = items.last();
        match split_once(x, '=') {
            Some((l, r)) => law_query_updates_keep_order(es, l, Some(r)),
            None => law_query_updates_keep_order(es, x, None),
        }
    }
}

/// A query built from items in key order gives the same items back, and
/// its last key is that of the last item.
proof fn lemma_query_from_in_order(items: Seq<Seq<char>>)
    requires
        items_in_key_order(items),
    ensures
        query_items(query_from(items)) == items,
        items.len() > 0 ==> query_from(items).len() > 0 && query_from(items).last().0 == item_key(
            items.last(),
        ),
    decreases items.len(),
{
    if items.len() > 0 {
        let pre = items.drop_last();
        let x = items.last();
        let k = item_key(x);
        let v = match split_once(x, '=') {
            Some((_, r)) => Some(r),
            None => None::<Seq<char>>,
        };
        assert(items_in_key_order(pre)) by {
            assert forall|i: int, j: int| 0 <= i < j < pre.len() implies !seq_lt(
                #[trigger] item_key(pre[j]),
                #[trigger] item_key(pre[i]),
            ) by {
                assert(pre[i] == items[i] && pre[j] == items[j]);
            }
        }
        lemma_query_from_in_order(pre);
        lemma_query_from_wf(pre);
        let es = query_from(pre);
        assert(query_from(items) == add_item(es, x));
        assert(add_item(es, x) == query_add(es, k, v));
        lemma_split_once_join(x, '=');
        assert(item_text(k, v) == x);
        let f = |w: Option<Seq<char>>| item_text(k, w);
        let r = query_add(es, k, v);
        let n = es.len();
        lemma_seq_lt_irreflexive(k);
        if n == 0 {
            lemma_lower_bound_at(es, k, 0);
            assert(r =~= seq![(k, seq![v])]);
            assert(r.drop_last() =~= Seq::<(Seq<char>, Seq<Option<Seq<char>>>)>::empty());
            assert(seq![v].map_values(f) =~= seq![x]);
            assert(query_items(r) =~= seq![x]);
            assert(pre.len() == 0) by {
                if pre.len() > 0 {
                    assert(query_from(pre).len() > 0);
                }
            }
            assert(items =~= seq![x]);
        } else {
            let lk = es[n - 1].0;
            assert(pre.len() > 0);
            assert(lk == item_key(pre.last()));
            assert(!seq_lt(k, lk)) by {
                assert(pre.last() == items[items.len() - 2]);
            }
            lemma_seq_lt_total(k, lk);
            if lk == k {
                assert forall|j: int| 0 <= j < n - 1 implies seq_lt(#[trigger] es[j].0, k) by {}
                lemma_lower_bound_at(es, k, n - 1);
                let vs = es[n - 1].1;
                assert(r == es.update(n - 1, (k, vs.push(v))));
                assert(r.drop_last() =~= es.drop_last());
                assert(r.last() == (k, vs.push(v)));
                assert(vs.push(v).map_values(f) =~= vs.map_values(f).push(x));
                assert(query_items(es) == query_items(es.drop_last()) + vs.map_values(f));
                assert(query_items(r) =~= query_items(es).push(x));
            } else {
                assert forall|j: int| 0 <= j < n implies seq_lt(#[trigger] es[j].0, k) by {
                    if j < n - 1 {
                        lemma_seq_lt_transitive(es[j].0, lk, k);
                    }
                }
                lemma_lower_bound_at(es, k, n as int);
                assert(r =~= es.push((k, seq![v])));
                assert(r.drop_last() =~= es);
                assert(seq![v].map_values(f) =~= seq![x]);
                assert(query_items(r) =~= query_items(es).push(x));
            }
            assert(items =~= pre.push(x));
        }
    }
}

/// A query string whose items come in key order prints back as written.
pub proof fn law_query_in_key_order_prints_back(qs: Seq<char>)
    requires
        items_in_key_order(split_on(qs, '&')),
    ensures
        query_text(query_from(split_on(qs, '&'))) == qs,
{
    lemma_query_from_in_order(split_on(qs, '&'));
    lemma_split_join(qs, '&');
}

/// The parameters of a query string: each key with the values given to it.
#[derive(Debug)]
pub struct Query {
    qs: Vec<(Vec<char>, Vec<Option<Vec<char>>>)>,
}

impl View for Query {
    type V = QueryModel;

    closed spec fn view(&self) -> QueryModel {
        self.qs.deep_view()
    }
}

impl Query {
    #[verifier::type_invariant]
    spec fn inv(self) -> bool {
        query_wf(self.qs.deep_view())
    }

    /// An empty query.
    pub fn new() -> (r: Query)
        ensures
            r@ == Seq::<(Seq<char>, Seq<Option<Seq<char>>>)>::empty(),
            query_wf(r@),
    {
        let r = Query { qs: Vec::new() };
        assert(r.qs.deep_view() =~= Seq::<(Seq<char>, Seq<Option<Seq<char>>>)>::empty());
        r
    }

    fn position(qs: &Vec<(Vec<char>, Vec<Option<Vec<char>>>)>, k: &Vec<char>) -> (r: usize)
        ensures
            r == lower_bound(qs.deep_view(), k@),
            r <= qs@.len(),
    {
        let ghost es = qs.deep_view();
        let mut i: usize = 0;
        while i < qs.len() && chars_lt(&qs[i].0, k)
            invariant
                i <= qs@.len(),
                es == qs.deep_view(),
                forall|j: int| 0 <= j < i ==> seq_lt(#[trigger] es[j].0, k@),
            decreases qs.len() - i,
        {
            proof {
                assert(es[i as int].0 == qs@[i as int].0@);
            }
            i += 1;
        }
        proof {
            if i < qs@.len() {
                assert(es[i as int].0 == qs@[i as int].0@);
            }
            lemma_lower_bound_at(es, k@, i as int);
        }
        i
    }

    fn update(&mut self, key: Vec<char>, value: Option<Vec<char>>, replace: bool)
        ensures
            final(self)@ == if replace {
                query_set(old(self)@, key@, value.deep_view())
            } else {
                query_add(old(self)@, key@, value.deep_view())
            },
    {
        proof {
            use_type_invariant(&*self);
        }
        let ghost es = self@;
        let ghost v = value.deep_view();
        proof {
            law_query_updates_keep_order(es, key@, v);
        }
        let mut qs: Vec<(Vec<char>, Vec<Option<Vec<char>>>)> = Vec::new();
        std::mem::swap(&mut qs, &mut self.qs);
        assert(qs.deep_view() == es);
        let p = Query::position(&qs, &key);
        let found = p < qs.len() && chars_eq(&qs[p].0, &key);
        proof {
            if p < qs@.len() {
                assert(es[p as int].0 == qs@[p as int].0@);
            }
        }
        if found {
            let (k, mut vs) = qs.remove(p);
            let ghost old_vs = vs;
            if replace {
                vs.clear();
            }
            vs.push(value);
            let ghost entry = (k, vs);
            qs.insert(p, (k, vs));
            proof {
                assert(old_vs.deep_view() == es[p as int].1);
                if replace {
                    assert(vs.deep_view() =~= seq![v]);
                } else {
                    assert(vs.deep_view() =~= es[p as int].1.push(v));
                }
                assert(qs.deep_view() =~= if replace {
                    query_set(es, key@, v)
                } else {
                    query_add(es, key@, v)
                });
            }
        } else {
            let mut vs: Vec<Option<Vec<char>>> = Vec::new();
            vs.push(value);
            proof {
                assert(vs.deep_view() =~= seq![v]);
            }
            qs.insert(p, (key, vs));
            proof {
                assert(qs.deep_view() =~= es.insert(p as int, (key@, seq![v])));
            }
        }
        self.qs = qs;
    }

    /// Appends `value` to the values of `key` (`None`: the key has no `=`).
    pub fn add(&mut self, key: &str, value: Option<&str>)
        ensures
            final(self)@ == query_add(old(self)@, key@, opt_view(value)),
            query_wf(final(self)@),
    {
        let k = chars_of(key);
        let v = match value {
            Some(x) => Some(chars_of(x)),
            None => None,
        };
        self.update(k, v, false);
        proof {
            use_type_invariant(&*self);
        }
    }

    /// Makes `value` the only value of `key`.
    pub fn set(&mut self, key: &str, value: Option<&str>)
        ensures
            final(self)@ == query_set(old(self)@, key@, opt_view(value)),
            query_wf(final(self)@),
    {
        let k = chars_of(key);
        let v = match value {
            Some(x) => Some(chars_of(x)),
            None => None,
        };
        self.update(k, v, true);
        proof {
            use_type_invariant(&*self);
        }
    }

    /// The query string; an empty query has none.
    pub fn to_string(&self) -> (r: String)
        requires
            self@.len() > 0,
        ensures
            r@ == query_text(self@),
    {
        proof {
            use_type_invariant(self);
        }
        let ghost es = self@;
        let mut items: Vec<Vec<char>> = Vec::new();
        let mut i: usize = 0;
        while i < self.qs.len()
            invariant
                i <= self.qs@.len(),
                es == self.qs.deep_view(),
                items.deep_view() == query_items(es.take(i as int)),
            decreases self.qs.len() - i,
        {
            let k = &self.qs[i].0;
            let vs = &self.qs[i].1;
            let ghost before = items.deep_view();
            let mut j: usize = 0;
            while j < vs.len()
                invariant
                    j <= vs@.len(),
                    k@ == es[i as int].0,
                    vs.deep_view() == es[i as int].1,
                    items.deep_view() == before + es[i as int].1.take(j as int).map_values(
                        |v: Option<Seq<char>>| item_text(es[i as int].0, v),
                    ),
                decreases vs.len() - j,
            {
                let mut item: Vec<char> = Vec::new();
                let mut n: usize = 0;
                while n < k.len()
                    invariant
                        n <= k@.len(),
                        item@ == k@.take(n as int),
                    decreases k.len() - n,
                {
                    item.push(k[n]);
                    n += 1;
                    assert(item@ =~= k@.take(n as int));
                }
                assert(k@.take(k@.len() as int) =~= k@);
                match &vs[j] {
                    Some(x) => {
                        item.push('=');
                        let mut m: usize = 0;
                        let ghost base = item@;
                        while m < x.len()
                            invariant
                                m <= x@.len(),
                                item@ == base + x@.take(m as int),
                            decreases x.len() - m,
                        {
                            item.push(x[m]);
                            m += 1;
                            assert(item@ =~= base + x@.take(m as int));
                        }
                        assert(x@.take(x@.len() as int) =~= x@);
                    },
                    None => {},
                }
                proof {
                    assert(vs.deep_view()[j as int] == vs@[j as int].deep_view());
                    assert(item@ == item_text(es[i as int].0, es[i as int].1[j as int]));
                }
                let ghost old_items = items;
                items.push(item);
                j += 1;
                proof {
                    assert(item.deep_view() == item@);
                    assert(items.deep_view() =~= old_items.deep_view().push(item@));
                    assert(es[i as int].1.take(j as int).map_values(
                        |v: Option<Seq<char>>| item_text(es[i as int].0, v),
                    ) =~= es[i as int].1.take(j - 1).map_values(
                        |v: Option<Seq<char>>| item_text(es[i as int].0, v),
                    ).push(item@));
                }
            }
            proof {
                assert(es[i as int].1.take(vs@.len() as int) =~= es[i as int].1);
                assert(es.take(i + 1).drop_last() =~= es.take(i as int));
                assert(es.take(i + 1).last() == es[i as int]);
            }
            i += 1;
        }
        proof {
            assert(es.take(es.len() as int) =~= es);
        }
        let mut out = String::new();
        let mut t: usize = 0;
        while t < items.len()
            invariant
                t <= items@.len(),
                out@ == join(items.deep_view().take(t as int), seq!['&']),
            decreases items.len() - t,
        {
            proof {
                lemma_join_push(items.deep_view().take(t as int), seq!['&'], items.deep_view()[t as int]);
                assert(items.deep_view().take(t + 1) =~= items.deep_view().take(t as int).push(
                    items.deep_view()[t as int],
                ));
                assert(items.deep_view()[t as int] == items@[t as int]@);
            }
            if t > 0 {
                push_char(&mut out, '&');
            }
            push_all(&mut out, &items[t]);
            t += 1;
            proof {
                if t == 1 {
                    assert(out@ =~= join(items.deep_view().take(t as int), seq!['&']));
                } else {
                    assert(out@ =~= join(items.deep_view().take(t as int), seq!['&']));
                }
            }
        }
        proof {
            assert(items.deep_view().take(items@.len() as int) =~= items.deep_view());
        }
        out
    }
}

// ---------------------------------------------------------------------
// URIs
// ---------------------------------------------------------------------

/// The hierarchical part of a URI, as plain values.
pub enum HierModel {
    AbEmpty { user_info: Option<Seq<char>>, host: Seq<char>, port: Option<u32>, path: Seq<char> },
    Absolute(Seq<char>),
    Rootless(Seq<char>),
    Empty,
}

/// A URI as plain values.
pub struct UriModel {
    pub scheme: Seq<char>,
    pub hier: HierModel,
    pub query: Option<QueryModel>,
    pub fragment: Option<Seq<char>>,
}

/// The authority of a URI: optional user information, host and nonzero port.
#[derive(Debug)]
pub struct Authority {
    user_info: Option<String>,
    host: String,
    port: Option<u32>,
}

impl Authority {
    #[verifier::type_invariant]
    spec fn inv(self) -> bool {
        self.port != Some(0u32)
    }

    pub closed spec fn user_info_view(&self) -> Option<Seq<char>> {
        self.user_info.deep_view()
    }

    pub closed spec fn host_view(&self) -> Seq<char> {
        self.host@
    }

    pub closed spec fn port_view(&self) -> Option<u32> {
        self.port
    }

    /// The user information before `@`, if any.
    pub fn user_info(&self) -> (r: &Option<String>)
        ensures
            r.deep_view() == self.user_info_view(),
    {
        &self.user_info
    }

    /// The host.
    pub fn host(&self) -> (r: &String)
        ensures
            r@ == self.host_view(),
    {
        &self.host
    }

    /// The port, if one was given; never zero.
    pub fn port(&self) -> (r: Option<u32>)
        ensures
            r == self.port_view(),
            r != Some(0u32),
    {
        proof {
            use_type_invariant(self);
        }
        self.port
    }
}

/// The part of a URI between the scheme and the query.
#[derive(Debug)]
pub enum HierPart {
    AbEmpty(Authority, AbEmpty),
    Absolute(Absolute),
    Rootless(Rootless),
    Empty,
}

impl View for HierPart {
    type V = HierModel;

    closed spec fn view(&self) -> HierModel {
        match self {
            HierPart::AbEmpty(a, p) => HierModel::AbEmpty {
                user_info: a.user_info_view(),
                host: a.host_view(),
                port: a.port_view(),
                path: p@,
            },
            HierPart::Absolute(p) => HierModel::Absolute(p@),
            HierPart::Rootless(p) => HierModel::Rootless(p@),
            HierPart::Empty => HierModel::Empty,
        }
    }
}

/// A URI: scheme, hierarchical part, optional query and optional fragment.
#[derive(Debug)]
pub struct Uri {
    scheme: Scheme,
    hier_part: HierPart,
    query: Option<Query>,
    fragment: Option<String>,
}

impl View for Uri {
    type V = UriModel;

    closed spec fn view(&self) -> UriModel {
        UriModel {
            scheme: self.scheme@,
            hier: self.hier_part@,
            query: match self.query {
                Some(q) => Some(q@),
                None => None,
            },
            fragment: self.fragment.deep_view(),
        }
    }
}

/// A relative reference: a relative part, optional query and optional fragment.
#[derive(Debug)]
pub struct RelativeUri {
    relative_part: RelativePart,
    query: Option<Query>,
    fragment: Option<String>,
}

/// The path part of a relative reference.
#[derive(Debug)]
pub enum RelativePart {
    AbEmpty(Authority, AbEmpty),
    Absolute(Absolute),
    NoScheme(NoScheme),
    Empty,
}

/// A URI or a relative reference.
#[derive(Debug)]
pub enum UriRef {
    Uri(Uri),
    Relative(RelativeUri),
}

/// A path of any of the RFC 3986 forms.
#[derive(Debug)]
pub enum Path {
    Empty,
    Rootless(Rootless),
    NoScheme(NoScheme),
    Absolute(Absolute),
    AbEmpty(AbEmpty),
}

impl Path {
    pub closed spec fn text(&self) -> Seq<char> {
        match self {
            Path::Empty => seq![],
            Path::Rootless(x) => x@,
            Path::NoScheme(x) => x@,
            Path::Absolute(x) => x@,
            Path::AbEmpty(x) => x@,
        }
    }
}

impl std::string::ToString for Path {
    fn to_string(&self) -> (r: String)
        ensures
            r@ == self.text(),
    {
        match self {
            Path::Empty => String::new(),
            Path::Rootless(x) => x.get().clone(),
            Path::NoScheme(x) => x.get().clone(),
            Path::Absolute(x) => x.get().clone(),
            Path::AbEmpty(x) => x.get().clone(),
        }
    }
}

/// The hierarchical part and the rest: split before the first `?`,
/// or else before the first `#`.
pub open spec fn split_hier(remain: Seq<char>) -> (Seq<char>, Seq<char>) {
    match find_char(remain, '?') {
        Some(i) => (remain.take(i), remain.skip(i)),
        None => match find_char(remain, '#') {
            Some(i) => (remain.take(i), remain.skip(i)),
            None => (remain, seq![]),
        },
    }
}

/// Host and port of an authority's `host[:port]` text.
pub open spec fn host_port(host: Seq<char>) -> Result<(Seq<char>, Option<u32>), UriError> {
    match find_char(host, ']') {
        Some(idx) => if idx + 1 == host.len() {
            Ok((host, None))
        } else {
            match parse_u32(host.skip(idx + 1)) {
                None => Err(UriError::InvalidBracketedPort),
                Some(p) => if p == 0 {
                    Err(UriError::ZeroBracketedPort)
                } else {
                    Ok((host.take(idx + 1), Some(p)))
                },
            }
        },
        None => match split_once(host, ':') {
            Some((h, p)) => match parse_u32(p) {
                None => Err(UriError::InvalidPort),
                Some(n) => if n == 0 {
                    Err(UriError::ZeroPort)
                } else {
                    Ok((h, Some(n)))
                },
            },
            None => Ok((host, None)),
        },
    }
}

/// The authority text and the path of a hierarchical part that starts with `//`.
pub open spec fn split_authority(h: Seq<char>) -> (Seq<char>, Seq<char>) {
    let a = h.skip(2);
    match find_char(a, '/') {
        Some(m) => (a.take(m), a.skip(m)),
        None => (a, seq![]),
    }
}

/// User information and host text of an authority.
pub open spec fn split_user_info(authority: Seq<char>) -> (Option<Seq<char>>, Seq<char>) {
    match split_once(authority, '@') {
        Some((u, h)) => (Some(u), h),
        None => (None, authority),
    }
}

pub open spec fn starts_with_two_slashes(h: Seq<char>) -> bool {
    h.len() >= 2 && h[0] == '/' && h[1] == '/'
}

/// The hierarchical part of a URI.
pub open spec fn parse_hier(h: Seq<char>) -> Result<HierModel, UriError> {
    if starts_with_two_slashes(h) {
        let (authority, path) = split_authority(h);
        let (user_info, host) = split_user_info(authority);
        match host_port(host) {
            Ok((hh, port)) => Ok(HierModel::AbEmpty { user_info, host: hh, port, path }),
            Err(e) => Err(e),
        }
    } else if h.len() == 0 {
        Ok(HierModel::Empty)
    } else if h[0] == '/' {
        Ok(HierModel::Absolute(h))
    } else {
        Ok(HierModel::Rootless(h))
    }
}

/// The query text and what follows it, for a rest that starts with `?`.
/// The query text ends just after the first `#` of the rest, or at its end.
pub open spec fn query_parts(rest: Seq<char>) -> (Seq<char>, Seq<char>) {
    match find_char(rest, '#') {
        Some(idx) => (rest.drop_first().take(idx), rest.drop_first().skip(idx)),
        None => (rest.drop_first(), seq![]),
    }
}

/// The query (if the rest starts with `?`) and what follows it.
pub open spec fn split_query(rest: Seq<char>) -> (Option<QueryModel>, Seq<char>) {
    if starts_with(rest, '?') {
        (Some(query_from(split_on(query_parts(rest).0, '&'))), query_parts(rest).1)
    } else {
        (None, rest)
    }
}

/// The URI with a given scheme whose text after the scheme's `:` is
/// `remain`: the hierarchical part, an optional query and an optional
/// fragment.
pub open spec fn parse_after_scheme(scheme: Seq<char>, remain: Seq<char>) -> Result<
    UriModel,
    UriError,
> {
    let (hier, rest) = split_hier(remain);
    match parse_hier(hier) {
        Err(e) => Err(e),
        Ok(hm) => {
            let (query, after) = split_query(rest);
            Ok(
                UriModel {
                    scheme,
                    hier: hm,
                    query,
                    fragment: if starts_with(after, '#') {
                        Some(after.drop_first())
                    } else {
                        None
                    },
                },
            )
        },
    }
}

/// `Uri::try_from`: the URI that `s` denotes, or why it denotes none.
pub open spec fn parse_uri(s: Seq<char>) -> Result<UriModel, UriError> {
    match split_once(s, ':') {
        None => Err(UriError::MissingColon),
        Some((scheme, remain)) => if !scheme_ok(scheme) {
            Err(UriError::InvalidScheme)
        } else {
            parse_after_scheme(scheme, remain)
        },
    }
}

/// The text of a hierarchical part.
pub open spec fn hier_text(h: HierModel) -> Seq<char> {
    match h {
        HierModel::AbEmpty { user_info, host, port, path } => seq!['/', '/'] + match user_info {
            Some(u) => u + seq!['@'],
            None => Seq::<char>::empty(),
        } + host + match port {
            Some(p) => seq![':'] + decimal_text(p as nat),
            None => Seq::<char>::empty(),
        } + path,
        HierModel::Absolute(p) => p,
        HierModel::Rootless(p) => p,
        HierModel::Empty => seq![],
    }
}

/// `Uri::to_string`: the text of a URI.
pub open spec fn uri_text(u: UriModel) -> Seq<char> {
    u.scheme + seq![':'] + hier_text(u.hier) + match u.query {
        Some(q) => seq!['?'] + query_text(q),
        None => Seq::<char>::empty(),
    } + match u.fragment {
        Some(f) => seq!['#'] + f,
        None => Seq::<char>::empty(),
    }
}

/// A parse result as plain values.
pub open spec fn uri_result_view(r: Result<Uri, UriError>) -> Result<UriModel, UriError> {
    match r {
        Ok(u) => Ok(u@),
        Err(e) => Err(e),
    }
}

fn parse_host_port(host: &Vec<char>) -> (r: Result<(Vec<char>, Option<u32>), UriError>)
    ensures
        match r {
            Ok((h, p)) => host_port(host@) == Ok::<(Seq<char>, Option<u32>), UriError>((h@, p))
                && p != Some(0u32),
            Err(e) => host_port(host@) == Err::<(Seq<char>, Option<u32>), UriError>(e),
        },
{
    let n = host.len();
    proof {
        assert(host@.subrange(0, n as int) =~= host@);
    }
    match find(host, ']') {
        Some(idx) => {
            if idx + 1 == n {
                Ok((sub_chars(host, 0, n), None))
            } else {
                let p = sub_chars(host, idx + 1, n);
                match parse_u32_chars(&p) {
                    None => Err(UriError::InvalidBracketedPort),
                    Some(v) => if v == 0 {
                        Err(UriError::ZeroBracketedPort)
                    } else {
                        Ok((sub_chars(host, 0, idx + 1), Some(v)))
                    },
                }
            }
        },
        None => match find(host, ':') {
            Some(i) => {
                let p = sub_chars(host, i + 1, n);
                match parse_u32_chars(&p) {
                    None => Err(UriError::InvalidPort),
                    Some(v) => if v == 0 {
                        Err(UriError::ZeroPort)
                    } else {
                        Ok((sub_chars(host, 0, i), Some(v)))
                    },
                }
            },
            None => Ok((sub_chars(host, 0, n), None)),
        },
    }
}

fn parse_hier_part(h: &Vec<char>) -> (r: Result<HierPart, UriError>)
    ensures
        match r {
            Ok(hp) => parse_hier(h@) == Ok::<HierModel, UriError>(hp@),
            Err(e) => parse_hier(h@) == Err::<HierModel, UriError>(e),
        },
{
    let n = h.len();
    if n >= 2 && h[0] == '/' && h[1] == '/' {
        let a = sub_chars(h, 2, n);
        let an = a.len();
        proof {
            assert(a@.subrange(0, an as int) =~= a@);
        }
        let (authority, path) = match find(&a, '/') {
            Some(m) => (sub_chars(&a, 0, m), sub_chars(&a, m, an)),
            None => (sub_chars(&a, 0, an), Vec::new()),
        };
        proof {
            lemma_find_char(a@, '/');
            assert(path@ =~= split_authority(h@).1);
        }
        let aun = authority.len();
        proof {
            assert(authority@.subrange(0, aun as int) =~= authority@);
        }
        let (user_info, host) = match find(&authority, '@') {
            Some(j) => (Some(string_of_range(&authority, 0, j)), sub_chars(&authority, j + 1, aun)),
            None => (None, sub_chars(&authority, 0, aun)),
        };
        let (hh, port) = match parse_host_port(&host) {
            Ok(x) => x,
            Err(e) => return Err(e),
        };
        let path_text = string_of(&path);
        let auth = Authority { user_info, host: string_of(&hh), port };
        let hp = HierPart::AbEmpty(auth, AbEmpty { value: path_text });
        proof {
            assert(user_info.deep_view() == split_user_info(authority@).0);
        }
        Ok(hp)
    } else if n == 0 {
        Ok(HierPart::Empty)
    } else if h[0] == '/' {
        Ok(HierPart::Absolute(Absolute { value: string_of(h) }))
    } else {
        proof {
            lemma_find_char(h@, '/');
        }
        Ok(HierPart::Rootless(Rootless { value: string_of(h) }))
    }
}

fn parse_query_chars(qs: &Vec<char>) -> (r: Query)
    ensures
        r@ == query_from(split_on(qs@, '&')),
        r@.len() > 0,
{
    let items = split_chars(qs, '&');
    let mut q = Query::new();
    let mut t: usize = 0;
    while t < items.len()
        invariant
            t <= items@.len(),
            items.deep_view() == split_on(qs@, '&'),
            q@ == query_from(items.deep_view().take(t as int)),
        decreases items.len() - t,
    {
        let item = &items[t];
        let il = item.len();
        let ghost es = q@;
        proof {
            assert(items.deep_view()[t as int] == item@);
            assert(items.deep_view().take(t + 1).drop_last() =~= items.deep_view().take(t as int));
        }
        match find(item, '=') {
            Some(i) => {
                let l = sub_chars(item, 0, i);
                let r = sub_chars(item, i + 1, il);
                q.update(l, Some(r), false);
            },
            None => {
                let k = sub_chars(item, 0, item.len());
                assert(item@.subrange(0, item@.len() as int) =~= item@);
                q.update(k, None, false);
            },
        }
        t += 1;
    }
    proof {
        assert(items.deep_view().take(items@.len() as int) =~= items.deep_view());
        lemma_query_from_wf(split_on(qs@, '&'));
    }
    q
}

fn parse_uri_chars(s: &Vec<char>) -> (r: Result<Uri, UriError>)
    ensures
        uri_result_view(r) == parse_uri(s@),
{
    let n = s.len();
    let i = match find(s, ':') {
        None => return Err(UriError::MissingColon),
        Some(i) => i,
    };
    let scheme = match Scheme::new(string_of_range(s, 0, i)) {
        Ok(x) => x,
        Err(_) => return Err(UriError::InvalidScheme),
    };
    let remain = sub_chars(s, i + 1, n);
    parse_after_scheme_chars(scheme, &remain)
}

fn parse_after_scheme_chars(scheme: Scheme, remain: &Vec<char>) -> (r: Result<Uri, UriError>)
    ensures
        uri_result_view(r) == parse_after_scheme(scheme@, remain@),
{
    let rn = remain.len();
    proof {
        assert(remain@.subrange(0, rn as int) =~= remain@);
    }
    let cut = match find(remain, '?') {
        Some(j) => j,
        None => match find(remain, '#') {
            Some(j) => j,
            None => rn,
        },
    };
    let hier = sub_chars(remain, 0, cut);
    let rest = sub_chars(remain, cut, rn);
    proof {
        assert(rest@ =~= split_hier(remain@).1);
    }
    let hier_part = match parse_hier_part(&hier) {
        Ok(x) => x,
        Err(e) => return Err(e),
    };
    let restn = rest.len();
    let (query, after) = if restn > 0 && rest[0] == '?' {
        match find(&rest, '#') {
            Some(idx) => {
                let qs = sub_chars(&rest, 1, idx + 1);
                let after = sub_chars(&rest, idx + 1, restn);
                proof {
                    assert(qs@ =~= rest@.drop_first().take(idx as int));
                    assert(after@ =~= rest@.drop_first().skip(idx as int));
                }
                (Some(parse_query_chars(&qs)), after)
            },
            None => {
                let qs = sub_chars(&rest, 1, restn);
                proof {
                    assert(qs@ =~= rest@.drop_first());
                }
                (Some(parse_query_chars(&qs)), Vec::new())
            },
        }
    } else {
        (None, rest)
    };
    let an = after.len();
    let fragment = if an > 0 && after[0] == '#' {
        let f = string_of_range(&after, 1, an);
        proof {
            assert(f@ =~= after@.drop_first());
        }
        Some(f)
    } else {
        None
    };
    let u = Uri { scheme, hier_part, query, fragment };
    proof {
        assert(u@.fragment == fragment.deep_view());
    }
    Ok(u)
}

impl Uri {
    #[verifier::type_invariant]
    spec fn inv(self) -> bool {
        self.query matches Some(q) ==> q@.len() > 0
    }

    /// The scheme.
    pub fn scheme(&self) -> (r: &Scheme)
        ensures
            r@ == self@.scheme,
    {
        &self.scheme
    }

    /// The hierarchical part.
    pub fn hier_part(&self) -> (r: &HierPart)
        ensures
            r@ == self@.hier,
    {
        &self.hier_part
    }

    /// The query, if any.
    pub fn query(&self) -> (r: &Option<Query>)
        ensures
            match r {
                Some(q) => self@.query == Some(q@) && query_wf(q@),
                None => self@.query is None,
            },
    {
        match &self.query {
            Some(q) => {
                proof {
                    use_type_invariant(q);
                }
            },
            None => {},
        }
        &self.query
    }

    /// The fragment, if any.
    pub fn fragment(&self) -> (r: &Option<String>)
        ensures
            r.deep_view() == self@.fragment,
    {
        &self.fragment
    }
}

impl Uri {
    /// The URI with the given scheme whose text after the scheme's `:` is
    /// `remain`: what `Uri::try_from` does once the scheme is accepted.
    pub fn parse_after_scheme(scheme: Scheme, remain: &str) -> (r: Result<Uri, UriError>)
        ensures
            uri_result_view(r) == parse_after_scheme(scheme@, remain@),
    {
        let v = chars_of(remain);
        parse_after_scheme_chars(scheme, &v)
    }
}

impl<'a> std::convert::TryFrom<&'a str> for Uri {
    type Error = UriError;

    /// Parses a URI: a scheme before the first `:`, then the hierarchical
    /// part, an optional `?query` and an optional `#fragment`.
    fn try_from(s: &'a str) -> (r: Result<Uri, UriError>)
        ensures
            uri_result_view(r) == parse_uri(s@),
    {
        let v = chars_of(s);
        parse_uri_chars(&v)
    }
}

impl<'a> vstd::std_specs::convert::TryFromSpecImpl<&'a str> for Uri {
    open spec fn obeys_try_from_spec() -> bool {
        false
    }

    open spec fn try_from_spec(s: &'a str) -> Result<Uri, UriError> {
        match parse_uri(s@) {
            Ok(m) => Ok(choose|u: Uri| u@ == m),
            Err(e) => Err(e),
        }
    }
}

fn push_hier(res: &mut String, hp: &HierPart)
    ensures
        final(res)@ == old(res)@ + hier_text(hp@),
{
    match hp {
        HierPart::Empty => {
            assert(res@ =~= old(res)@ + hier_text(hp@));
        },
        HierPart::Absolute(p) => push_str(res, p.get().as_str()),
        HierPart::Rootless(p) => push_str(res, p.get().as_str()),
        HierPart::AbEmpty(a, p) => {
            push_char(res, '/');
            push_char(res, '/');
            let ghost s1 = res@;
            match &a.user_info {
                Some(u) => {
                    push_str(res, u.as_str());
                    push_char(res, '@');
                },
                None => {},
            }
            let ghost s2 = res@;
            push_str(res, a.host.as_str());
            let ghost s3 = res@;
            match a.port {
                Some(port) => {
                    push_char(res, ':');
                    push_decimal(res, port);
                },
                None => {},
            }
            let ghost s4 = res@;
            push_str(res, p.get().as_str());
            proof {
                let user = match a.user_info_view() {
                    Some(u) => u + seq!['@'],
                    None => Seq::<char>::empty(),
                };
                let portt = match a.port_view() {
                    Some(x) => seq![':'] + decimal_text(x as nat),
                    None => Seq::<char>::empty(),
                };
                assert(s1 =~= old(res)@ + seq!['/', '/']);
                assert(s2 =~= s1 + user);
                assert(s4 =~= s3 + portt);
                assert(res@ =~= old(res)@ + hier_text(hp@));
            }
        },
    }
}

impl std::string::ToString for Uri {
    /// The URI written back as text.
    fn to_string(&self) -> (r: String)
        ensures
            r@ == uri_text(self@),
    {
        proof {
            use_type_invariant(self);
        }
        let mut res = String::new();
        push_str(&mut res, self.scheme.get().as_str());
        push_char(&mut res, ':');
        push_hier(&mut res, &self.hier_part);
        let ghost head = res@;
        match &self.query {
            Some(q) => {
                push_char(&mut res, '?');
                let qt = q.to_string();
                push_str(&mut res, qt.as_str());
            },
            None => {},
        }
        let ghost mid = res@;
        match &self.fragment {
            Some(f) => {
                push_char(&mut res, '#');
                push_str(&mut res, f.as_str());
            },
            None => {},
        }
        proof {
            let qt = match self@.query {
                Some(q) => seq!['?'] + query_text(q),
                None => Seq::<char>::empty(),
            };
            let ft = match self@.fragment {
                Some(f) => seq!['#'] + f,
                None => Seq::<char>::empty(),
            };
            assert(head =~= self@.scheme + seq![':'] + hier_text(self@.hier));
            assert(mid =~= head + qt);
            assert(res@ =~= mid + ft);
        }
        res
    }
}

// ---------------------------------------------------------------------
// Printing what was parsed
// ---------------------------------------------------------------------

/// Host text that prints back as written: nothing after a closing `]`, and
/// a port after `:` written plainly.
pub open spec fn host_prints_back(host: Seq<char>) -> bool {
    match find_char(host, ']') {
        Some(idx) => idx + 1 == host.len(),
        None => match split_once(host, ':') {
            Some((_, p)) => plain_decimal(p),
            None => true,
        },
    }
}

/// A hierarchical part whose authority, if any, prints back as written.
pub open spec fn hier_prints_back(h: Seq<char>) -> bool {
    starts_with_two_slashes(h) ==> host_prints_back(split_user_info(split_authority(h).0).1)
}

/// A query whose items come in key order (each key sorts no earlier than
/// the one before it), followed by nothing or by a fragment.
pub open spec fn query_prints_back(rest: Seq<char>) -> bool {
    starts_with(rest, '?') ==> {
        let (qs, after) = query_parts(rest);
        &&& items_in_key_order(split_on(qs, '&'))
        &&& (after.len() == 0 || after[0] == '#')
    }
}

/// Text whose ports are written plainly and whose query, if any, has its
/// items in key order and is followed by nothing or by a fragment.
pub open spec fn prints_back(s: Seq<char>) -> bool {
    match split_once(s, ':') {
        Some((_, remain)) => {
            &&& hier_prints_back(split_hier(remain).0)
            &&& query_prints_back(split_hier(remain).1)
        },
        None => true,
    }
}

/// A split at the first occurrence of a character puts the text back together.
pub proof fn lemma_split_once_join(s: Seq<char>, c: char)
    ensures
        match split_once(s, c) {
            Some((a, b)) => s == a + seq![c] + b && find_char(a, c) is None,
            None => true,
        },
{
    lemma_find_char(s, c);
    match find_char(s, c) {
        Some(i) => {
            assert(s =~= s.take(i) + seq![c] + s.skip(i + 1));
            lemma_find_char_at(s.take(i), c, i);
        },
        None => {},
    }
}

proof fn lemma_host_prints_back(host: Seq<char>)
    requires
        host_port(host) is Ok,
        host_prints_back(host),
    ensures
        ({
            let (hh, port) = host_port(host)->Ok_0;
            hh + match port {
                Some(p) => seq![':'] + decimal_text(p as nat),
                None => Seq::<char>::empty(),
            } == host
        }),
{
    match find_char(host, ']') {
        Some(idx) => {
            assert(host + Seq::<char>::empty() =~= host);
        },
        None => {
            lemma_split_once_join(host, ':');
            match split_once(host, ':') {
                Some((h, p)) => {
                    lemma_plain_decimal(p);
                    assert(h + (seq![':'] + p) =~= h + seq![':'] + p);
                },
                None => {
                    assert(host + Seq::<char>::empty() =~= host);
                },
            }
        },
    }
}

proof fn lemma_hier_prints_back(h: Seq<char>)
    requires
        parse_hier(h) is Ok,
        hier_prints_back(h),
    ensures
        hier_text(parse_hier(h)->Ok_0) == h,
{
    if starts_with_two_slashes(h) {
        let a = h.skip(2);
        let (authority, path) = split_authority(h);
        lemma_find_char(a, '/');
        assert(a == authority + path) by {
            match find_char(a, '/') {
                Some(m) => assert(a =~= a.take(m) + a.skip(m)),
                None => assert(a =~= a + Seq::<char>::empty()),
            }
        }
        let (user_info, host) = split_user_info(authority);
        lemma_split_once_join(authority, '@');
        let user = match user_info {
            Some(u) => u + seq!['@'],
            None => Seq::<char>::empty(),
        };
        assert(authority == user + host) by {
            match split_once(authority, '@') {
                Some((u, hh)) => {},
                None => assert(authority =~= Seq::<char>::empty() + authority),
            }
        }
        lemma_host_prints_back(host);
        assert(h =~= seq!['/', '/'] + a);
        assert(hier_text(parse_hier(h)->Ok_0) =~= h);
    }
}

/// Parsing and then printing gives back the text, when its ports are written
/// plainly and its query, if any, lists its items in key order and is
/// followed by nothing or by a fragment. (A query comes back with its items
/// sorted by key, and a port written `+80` or `080` comes back as `80`.)
pub proof fn law_parse_then_print(s: Seq<char>)
    requires
        parse_uri(s) is Ok,
        prints_back(s),
    ensures
        uri_text(parse_uri(s)->Ok_0) == s,
{
    lemma_split_once_join(s, ':');
    let (scheme, remain) = split_once(s, ':')->Some_0;
    let (hier, rest) = split_hier(remain);
    lemma_find_char(remain, '?');
    lemma_find_char(remain, '#');
    assert(remain == hier + rest) by {
        match find_char(remain, '?') {
            Some(i) => assert(remain =~= remain.take(i) + remain.skip(i)),
            None => match find_char(remain, '#') {
                Some(i) => assert(remain =~= remain.take(i) + remain.skip(i)),
                None => assert(remain =~= remain + Seq::<char>::empty()),
            },
        }
    }
    assert(rest.len() > 0 ==> rest[0] == '?' || rest[0] == '#');
    lemma_hier_prints_back(hier);
    let u = parse_uri(s)->Ok_0;
    let qt = match u.query {
        Some(q) => seq!['?'] + query_text(q),
        None => Seq::<char>::empty(),
    };
    let ft = match u.fragment {
        Some(f) => seq!['#'] + f,
        None => Seq::<char>::empty(),
    };
    assert(qt + ft == rest) by {
        if starts_with(rest, '?') {
            let (qs, after) = query_parts(rest);
            law_query_in_key_order_prints_back(qs);
            lemma_find_char(rest, '#');
            assert(rest =~= seq!['?'] + qs + after) by {
                match find_char(rest, '#') {
                    Some(idx) => {
                        assert(idx >= 1);
                        assert(rest =~= seq![rest[0]] + rest.drop_first());
                        assert(rest.drop_first() =~= rest.drop_first().take(idx)
                            + rest.drop_first().skip(idx));
                    },
                    None => assert(rest =~= seq![rest[0]] + rest.drop_first()),
                }
            }
            if after.len() > 0 {
                assert(after =~= seq!['#'] + after.drop_first());
            } else {
                assert(after =~= Seq::<char>::empty());
            }
            assert(qt + ft =~= seq!['?'] + qs + after);
        } else if rest.len() > 0 {
            assert(rest[0] == '#');
            assert(rest =~= seq!['#'] + rest.drop_first());
        } else {
            assert(rest =~= Seq::<char>::empty());
        }
    }
    assert(uri_text(u) =~= scheme + seq![':'] + hier + rest);
}

/// The characters of an optional string slice.
pub open spec fn opt_view(o: Option<&str>) -> Option<Seq<char>> {
    match o {
        Some(s) => Some(s@),
        None => None,
    }
}

} // verus!
