//! Term extraction from one line of JSON content: parse the line, walk
//! the value, and collect a duplicate-free set of lowercase terms.
//! Object keys are terms; string values contribute their maximal
//! alphanumeric fragments; numbers and booleans contribute their textual
//! form; null contributes nothing. A line that is not valid JSON
//! contributes no terms at all.

use vstd::prelude::*;

verus! {

/// One line's JSON content, rebuilt as plain data: numbers are carried
/// by their canonical textual form, objects as key/value pairs in the
/// order the parser hands them out.
pub enum JsonValue {
    Null,
    Bool(bool),
    Number(String),
    Text(String),
    Array(Vec<JsonValue>),
    Object(Vec<(String, JsonValue)>),
}

/// What parsing a line as JSON yields: the line's value, reshaped as
/// `JsonValue`, or nothing when the line is not valid JSON.
pub uninterp spec fn json_parse(line: Seq<char>) -> Option<JsonValue>;

/// The lowercase form of a character sequence.
pub uninterp spec fn lower_of(s: Seq<char>) -> Seq<char>;

/// Whether a character counts as whitespace.
pub uninterp spec fn whitespace(c: char) -> bool;

/// Whether a character counts as alphanumeric.
pub uninterp spec fn alphanumeric(c: char) -> bool;

/// The parser's own value type, declared so that it may pass through
/// `value_shape`; nothing inside it is visible here.
#[verifier::external_type_specification]
#[verifier::external_body]
pub struct ExValue(serde_json::Value);

/// Relies on serde_json::from_str for `serde_json::Value`: a line
/// parses to at most one JSON value, a function of the characters
/// alone; the result is rebuilt as `JsonValue` by `value_shape`.
#[verifier::external_body]
pub fn parse_json_line(line: &str) -> (r: Option<JsonValue>)
    ensures
        r == json_parse(line@),
{
    match serde_json::from_str::<serde_json::Value>(line) {
        Ok(v) => Some(value_shape(&v)),
        Err(_) => None,
    }
}

/// Relies on the variants of serde_json::Value: rebuilds the parsed
/// value as `JsonValue`, one arm per variant, moving fields only;
/// numbers take their canonical textual form. Serves `parse_json_line`.
#[verifier::external_body]
fn value_shape(v: &serde_json::Value) -> JsonValue {
    match v {
        serde_json::Value::Null => JsonValue::Null,
        serde_json::Value::Bool(b) => JsonValue::Bool(*b),
        serde_json::Value::Number(n) => JsonValue::Number(n.to_string()),
        serde_json::Value::String(s) => JsonValue::Text(s.clone()),
        serde_json::Value::Array(a) => JsonValue::Array(a.iter().map(value_shape).collect()),
        serde_json::Value::Object(m) => JsonValue::Object(
            m.iter().map(|(k, w)| (k.clone(), value_shape(w))).collect(),
        ),
    }
}

/// Relies on str::to_lowercase: the result depends on the characters
/// alone.
pub assume_specification[ str::to_lowercase ](s: &str) -> (r: String)
    ensures
        r@ == lower_of(s@),
;

/// Relies on char::is_whitespace: the result depends on the character
/// alone.
pub assume_specification[ char::is_whitespace ](c: char) -> (r: bool)
    ensures
        r == whitespace(c),
;

/// Relies on char::is_alphanumeric: the result depends on the character
/// alone.
pub assume_specification[ char::is_alphanumeric ](c: char) -> (r: bool)
    ensures
        r == alphanumeric(c),
;

/// `s[i .. j)` is a maximal non-empty run of alphanumeric characters.
pub open spec fn is_fragment(s: Seq<char>, i: int, j: int) -> bool {
    &&& 0 <= i < j <= s.len()
    &&& (forall|k: int| i <= k < j ==> alphanumeric(#[trigger] s[k]))
    &&& (i == 0 || !alphanumeric(s[i - 1]))
    &&& (j == s.len() || !alphanumeric(s[j]))
}

/// The lowercase forms of all maximal alphanumeric fragments of `s`
/// that end at or before position `upto`.
pub open spec fn fragment_terms_upto(s: Seq<char>, upto: int) -> Set<Seq<char>> {
    Set::new(
        |t: Seq<char>|
            exists|i: int, j: int|
                is_fragment(s, i, j) && j <= upto && t == lower_of(s.subrange(i, j)),
    )
}

/// The lowercase forms of all maximal alphanumeric fragments of `s`:
/// what one string value contributes to the term set.
pub open spec fn fragment_terms(s: Seq<char>) -> Set<Seq<char>> {
    fragment_terms_upto(s, s.len() as int)
}

/// The set of terms a JSON value contributes: keys lowercased, string
/// values by their lowercased fragments, numbers and booleans by their
/// textual form, arrays and objects by their members.
pub open spec fn term_set(v: JsonValue) -> Set<Seq<char>>
    decreases v,
{
    match v {
        JsonValue::Null => Set::empty(),
        JsonValue::Bool(b) => Set::empty().insert(if b {
            "true"@
        } else {
            "false"@
        }),
        JsonValue::Number(s) => Set::empty().insert(s@),
        JsonValue::Text(s) => fragment_terms(s@),
        JsonValue::Array(a) => Set::new(
            |t: Seq<char>|
                exists|i: int| 0 <= i < a@.len() && term_set(#[trigger] a@[i]).contains(t),
        ),
        JsonValue::Object(m) => Set::new(
            |t: Seq<char>|
                exists|i: int|
                    0 <= i < m@.len() && (t == lower_of((#[trigger] m@[i]).0@) || term_set(
                        m@[i].1,
                    ).contains(t)),
        ),
    }
}

/// The set of terms one line contributes: those of its JSON value, or
/// none when the line does not parse.
pub open spec fn line_terms(line: Seq<char>) -> Set<Seq<char>> {
    match json_parse(line) {
        Some(v) => term_set(v),
        None => Set::empty(),
    }
}

/// The set of character sequences a vector of strings holds.
pub open spec fn views_of(ss: Seq<String>) -> Set<Seq<char>> {
    Set::new(|t: Seq<char>| exists|i: int| 0 <= i < ss.len() && (#[trigger] ss[i])@ == t)
}

/// No two strings of the vector read the same.
pub open spec fn distinct_views(ss: Seq<String>) -> bool {
    forall|i: int, j: int| 0 <= i < j < ss.len() ==> (#[trigger] ss[i])@ != (#[trigger] ss[j])@
}

/// Append `t` unless an equal string is already present.
fn insert_unique(terms: &mut Vec<String>, t: String)
    requires
        distinct_views(old(terms)@),
    ensures
        distinct_views(final(terms)@),
        views_of(final(terms)@) == views_of(old(terms)@).insert(t@),
{
    let n = terms.len();
    let mut i: usize = 0;
    while i < n
        invariant
            terms@ == old(terms)@,
            distinct_views(terms@),
            n == terms@.len(),
            i <= n,
            forall|k: int| 0 <= k < i ==> (#[trigger] terms@[k])@ != t@,
        decreases n - i,
    {
        if terms[i] == t {
            proof {
                assert(views_of(terms@) =~= views_of(terms@).insert(t@));
            }
            return ;
        }
        i += 1;
    }
    terms.push(t);
    proof {
        let pre = old(terms)@;
        assert(forall|k: int| 0 <= k < pre.len() ==> terms@[k] == pre[k]);
        assert forall|u: Seq<char>| views_of(pre).insert(t@).contains(u) implies views_of(
            terms@,
        ).contains(u) by {
            if u == t@ {
                assert(terms@[pre.len() as int]@ == u);
            } else {
                let k = choose|k: int| 0 <= k < pre.len() && (#[trigger] pre[k])@ == u;
                assert(terms@[k]@ == u);
            }
        }
        assert forall|u: Seq<char>| views_of(terms@).contains(u) implies views_of(pre).insert(
            t@,
        ).contains(u) by {
            let k = choose|k: int| 0 <= k < terms@.len() && (#[trigger] terms@[k])@ == u;
            if k < pre.len() {
                assert(pre[k]@ == u);
            }
        }
        assert(views_of(terms@) =~= views_of(pre).insert(t@));
    }
}

/// No maximal fragment ends inside `(x .. y]` when position `y - 1`
/// ends no fragment, so widening the bound from `x` to `y` adds nothing.
proof fn lemma_frag_upto_same(s: Seq<char>, x: int, y: int)
    requires
        0 <= x <= y <= s.len(),
        forall|i: int, j: int| is_fragment(s, i, j) && j <= y ==> j <= x,
    ensures
        fragment_terms_upto(s, x) == fragment_terms_upto(s, y),
{
    assert forall|t: Seq<char>| fragment_terms_upto(s, y).contains(t) implies fragment_terms_upto(
        s,
        x,
    ).contains(t) by {
        let (i, j) = choose|i: int, j: int|
            is_fragment(s, i, j) && j <= y && t == lower_of(s.subrange(i, j));
        assert(is_fragment(s, i, j) && j <= x && t == lower_of(s.subrange(i, j)));
    }
    assert(fragment_terms_upto(s, x) =~= fragment_terms_upto(s, y));
}

/// Closing the run `s[rs .. i)` at a boundary completes exactly one
/// maximal fragment: the terms seen up to `u` are those seen up to the
/// run's start plus this fragment's lowercase form.
proof fn lemma_frag_close(s: Seq<char>, rs: int, i: int, u: int)
    requires
        0 <= rs < i <= u <= s.len(),
        u <= i + 1,
        u == i + 1 ==> i < s.len() && !alphanumeric(s[i]),
        forall|k: int| rs <= k < i ==> alphanumeric(#[trigger] s[k]),
        rs == 0 || !alphanumeric(s[rs - 1]),
        i == s.len() || !alphanumeric(s[i]),
    ensures
        is_fragment(s, rs, i),
        fragment_terms_upto(s, u) == fragment_terms_upto(s, rs).insert(
            lower_of(s.subrange(rs, i)),
        ),
{
    let t0 = lower_of(s.subrange(rs, i));
    assert forall|t: Seq<char>| fragment_terms_upto(s, u).contains(t) implies fragment_terms_upto(
        s,
        rs,
    ).insert(t0).contains(t) by {
        let (a, b) = choose|a: int, b: int|
            is_fragment(s, a, b) && b <= u && t == lower_of(s.subrange(a, b));
        if b > rs {
            // The only fragment ending past the run's start is the run itself.
            assert(b != i + 1) by {
                if b == i + 1 {
                    assert(alphanumeric(s[b - 1]));
                }
            }
            assert(b == i) by {
                if b < i {
                    assert(alphanumeric(s[b]));
                }
            }
            assert(a == rs) by {
                if a < rs {
                    assert(alphanumeric(s[rs - 1]));
                }
                if a > rs {
                    assert(alphanumeric(s[a - 1]));
                }
            }
        }
    }
    assert(fragment_terms_upto(s, u).contains(t0)) by {
        assert(is_fragment(s, rs, i) && i <= u && t0 == lower_of(s.subrange(rs, i)));
    }
    assert forall|t: Seq<char>|
        fragment_terms_upto(s, rs).insert(t0).contains(t) implies fragment_terms_upto(
        s,
        u,
    ).contains(t) by {
        if t != t0 {
            let (a, b) = choose|a: int, b: int|
                is_fragment(s, a, b) && b <= rs && t == lower_of(s.subrange(a, b));
            assert(is_fragment(s, a, b) && b <= u && t == lower_of(s.subrange(a, b)));
        }
    }
    assert(fragment_terms_upto(s, u) =~= fragment_terms_upto(s, rs).insert(t0));
}

/// Add the lowercase form of every maximal alphanumeric fragment of `s`
/// to `terms`.
fn push_fragment_terms(s: &str, terms: &mut Vec<String>)
    requires
        distinct_views(old(terms)@),
    ensures
        distinct_views(final(terms)@),
        views_of(final(terms)@) == views_of(old(terms)@).union(fragment_terms(s@)),
{
    let n = s.unicode_len();
    let mut i: usize = 0;
    let mut run_start: usize = 0;
    let mut in_run: bool = false;
    proof {
        assert(views_of(terms@) =~= views_of(old(terms)@).union(fragment_terms_upto(s@, 0)));
    }
    while i < n
        invariant
            distinct_views(terms@),
            n == s@.len(),
            i <= n,
            in_run ==> run_start < i && (run_start == 0 || !alphanumeric(s@[run_start - 1])),
            in_run ==> forall|k: int| run_start <= k < i ==> alphanumeric(#[trigger] s@[k]),
            !in_run ==> (i == 0 || !alphanumeric(s@[i - 1])),
            views_of(terms@) == views_of(old(terms)@).union(
                fragment_terms_upto(
                    s@,
                    if in_run {
                        run_start as int
                    } else {
                        i as int
                    },
                ),
            ),
        decreases n - i,
    {
        let c = s.get_char(i);
        if c.is_alphanumeric() {
            if !in_run {
                run_start = i;
                in_run = true;
            }
        } else {
            if in_run {
                let frag = s.substring_char(run_start, i);
                let lowered = frag.to_lowercase();
                proof {
                    lemma_frag_close(s@, run_start as int, i as int, i + 1);
                }
                insert_unique(terms, lowered);
                proof {
                    assert(views_of(terms@) =~= views_of(old(terms)@).union(
                        fragment_terms_upto(s@, i + 1),
                    ));
                }
                in_run = false;
            } else {
                proof {
                    lemma_frag_upto_same(s@, i as int, i + 1);
                }
            }
        }
        i += 1;
    }
    if in_run {
        let frag = s.substring_char(run_start, n);
        let lowered = frag.to_lowercase();
        proof {
            lemma_frag_close(s@, run_start as int, n as int, n as int);
        }
        insert_unique(terms, lowered);
        proof {
            assert(views_of(terms@) =~= views_of(old(terms)@).union(
                fragment_terms_upto(s@, n as int),
            ));
        }
    }
}

/// The terms of the first `upto` elements of an array.
pub open spec fn array_terms_upto(a: Seq<JsonValue>, upto: int) -> Set<Seq<char>> {
    Set::new(
        |t: Seq<char>|
            exists|k: int| 0 <= k < upto && k < a.len() && term_set(#[trigger] a[k]).contains(t),
    )
}

/// The terms of the first `upto` members of an object.
pub open spec fn object_terms_upto(m: Seq<(String, JsonValue)>, upto: int) -> Set<Seq<char>> {
    Set::new(
        |t: Seq<char>|
            exists|k: int|
                0 <= k < upto && k < m.len() && (t == lower_of((#[trigger] m[k]).0@) || term_set(
                    m[k].1,
                ).contains(t)),
    )
}

/// Walk a JSON value and add every term it contributes to `terms`,
/// never duplicating an entry.
#[verifier::loop_isolation(false)]
pub fn extract_terms_from_value(v: &JsonValue, terms: &mut Vec<String>)
    requires
        distinct_views(old(terms)@),
    ensures
        distinct_views(final(terms)@),
        views_of(final(terms)@) == views_of(old(terms)@).union(term_set(*v)),
    decreases *v,
{
    match v {
        JsonValue::Null => {
            proof {
                assert(views_of(terms@) =~= views_of(terms@).union(term_set(*v)));
            }
        },
        JsonValue::Bool(b) => {
            let t = if *b {
                "true".to_owned()
            } else {
                "false".to_owned()
            };
            insert_unique(terms, t);
            proof {
                assert(views_of(terms@) =~= views_of(old(terms)@).union(term_set(*v)));
            }
        },
        JsonValue::Number(sn) => {
            insert_unique(terms, sn.clone());
            proof {
                assert(views_of(terms@) =~= views_of(old(terms)@).union(term_set(*v)));
            }
        },
        JsonValue::Text(st) => {
            push_fragment_terms(st.as_str(), terms);
        },
        JsonValue::Array(arr) => {
            let n = arr.len();
            let mut i: usize = 0;
            proof {
                assert(views_of(terms@) =~= views_of(old(terms)@).union(array_terms_upto(arr@, 0)));
            }
            while i < n
                invariant
                    distinct_views(terms@),
                    n == arr@.len(),
                    i <= n,
                    views_of(terms@) == views_of(old(terms)@).union(array_terms_upto(arr@, i as int)),
                decreases n - i,
            {
                let ghost mid = terms@;
                extract_terms_from_value(&arr[i], terms);
                proof {
                    lemma_array_terms_step(views_of(old(terms)@), arr@, i as int, views_of(mid), views_of(terms@));
                }
                i += 1;
            }
            proof {
                assert(array_terms_upto(arr@, n as int) =~= term_set(*v));
            }
        },
        JsonValue::Object(obj) => {
            let n = obj.len();
            let mut i: usize = 0;
            proof {
                assert(views_of(terms@) =~= views_of(old(terms)@).union(
                    object_terms_upto(obj@, 0),
                ));
            }
            while i < n
                invariant
                    distinct_views(terms@),
                    n == obj@.len(),
                    i <= n,
                    views_of(terms@) == views_of(old(terms)@).union(
                        object_terms_upto(obj@, i as int),
                    ),
                decreases n - i,
            {
                let pair = &obj[i];
                let lowered_key = pair.0.as_str().to_lowercase();
                insert_unique(terms, lowered_key);
                let ghost mid = terms@;
                extract_terms_from_value(&pair.1, terms);
                proof {
                    lemma_object_terms_step(
                        views_of(old(terms)@),
                        obj@,
                        i as int,
                        views_of(mid),
                        views_of(terms@),
                    );
                }
                i += 1;
            }
            proof {
                assert(object_terms_upto(obj@, n as int) =~= term_set(*v));
            }
        },
    }
}

/// One array element processed: the collected views move from bound `i`
/// to bound `i + 1`.
proof fn lemma_array_terms_step(
    base: Set<Seq<char>>,
    a: Seq<JsonValue>,
    i: int,
    mid: Set<Seq<char>>,
    post: Set<Seq<char>>,
)
    requires
        0 <= i < a.len(),
        mid == base.union(array_terms_upto(a, i)),
        post == mid.union(term_set(a[i])),
    ensures
        post == base.union(array_terms_upto(a, i + 1)),
{
    assert forall|t: Seq<char>| post.contains(t) implies base.union(
        array_terms_upto(a, i + 1),
    ).contains(t) by {
        if array_terms_upto(a, i).contains(t) {
            let k = choose|k: int|
                0 <= k < i && k < a.len() && term_set(#[trigger] a[k]).contains(t);
            assert(0 <= k < i + 1 && k < a.len() && term_set(a[k]).contains(t));
        } else if term_set(a[i]).contains(t) {
            assert(0 <= i < i + 1 && i < a.len() && term_set(a[i]).contains(t));
        }
    }
    assert forall|t: Seq<char>| base.union(array_terms_upto(a, i + 1)).contains(t) implies post.contains(
        t,
    ) by {
        if array_terms_upto(a, i + 1).contains(t) {
            let k = choose|k: int|
                0 <= k < i + 1 && k < a.len() && term_set(#[trigger] a[k]).contains(t);
            if k < i {
                assert(array_terms_upto(a, i).contains(t));
            }
        }
    }
    assert(post =~= base.union(array_terms_upto(a, i + 1)));
}

/// One object member processed, key first, value after: the collected
/// views move from bound `i` to bound `i + 1`.
proof fn lemma_object_terms_step(
    base: Set<Seq<char>>,
    m: Seq<(String, JsonValue)>,
    i: int,
    mid: Set<Seq<char>>,
    post: Set<Seq<char>>,
)
    requires
        0 <= i < m.len(),
        mid == base.union(object_terms_upto(m, i)).insert(lower_of(m[i].0@)),
        post == mid.union(term_set(m[i].1)),
    ensures
        post == base.union(object_terms_upto(m, i + 1)),
{
    assert forall|t: Seq<char>| post.contains(t) implies base.union(
        object_terms_upto(m, i + 1),
    ).contains(t) by {
        if object_terms_upto(m, i).contains(t) {
            let k = choose|k: int|
                0 <= k < i && k < m.len() && (t == lower_of((#[trigger] m[k]).0@) || term_set(
                    m[k].1,
                ).contains(t));
            assert(0 <= k < i + 1 && k < m.len() && (t == lower_of(m[k].0@) || term_set(
                m[k].1,
            ).contains(t)));
        } else if t == lower_of(m[i].0@) || term_set(m[i].1).contains(t) {
            assert(0 <= i < i + 1 && i < m.len() && (t == lower_of(m[i].0@) || term_set(
                m[i].1,
            ).contains(t)));
        }
    }
    assert forall|t: Seq<char>| base.union(object_terms_upto(m, i + 1)).contains(t) implies post.contains(
        t,
    ) by {
        if object_terms_upto(m, i + 1).contains(t) {
            let k = choose|k: int|
                0 <= k < i + 1 && k < m.len() && (t == lower_of((#[trigger] m[k]).0@) || term_set(
                    m[k].1,
                ).contains(t));
            if k < i {
                assert(object_terms_upto(m, i).contains(t));
            }
        }
    }
    assert(post =~= base.union(object_terms_upto(m, i + 1)));
}

/// Tokenize one line of JSON content: the duplicate-free list of every
/// lowercase term the line contributes, empty when the line is not
/// valid JSON.
pub fn tokenize_json_line(line_content: &str) -> (terms: Vec<String>)
    ensures
        distinct_views(terms@),
        views_of(terms@) == line_terms(line_content@),
{
    let mut terms: Vec<String> = Vec::new();
    match parse_json_line(line_content) {
        Some(v) => {
            extract_terms_from_value(&v, &mut terms);
            proof {
                assert(views_of(terms@) =~= line_terms(line_content@));
            }
        },
        None => {
            proof {
                assert(views_of(terms@) =~= line_terms(line_content@));
            }
        },
    }
    terms
}

} // verus!
