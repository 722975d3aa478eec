//! Turning a package's name and description into indexable words.

use vstd::prelude::*;
use vstd::string::*;

verus! {

/// ASCII whitespace, on which a description is split into tokens.
pub open spec fn is_ws(c: char) -> bool {
    c == ' ' || c == '\t' || c == '\n' || c == '\x0C' || c == '\r'
}

/// Separators inside a package name.
pub open spec fn is_name_sep(c: char) -> bool {
    c == '-' || c == '_'
}

/// The characters that end a token: whitespace in a description,
/// `-` and `_` in a name.
pub open spec fn breaks(c: char, in_name: bool) -> bool {
    if in_name {
        is_name_sep(c)
    } else {
        is_ws(c)
    }
}

/// Punctuation stripped from the front of a description token.
pub open spec fn is_lead_punct(c: char) -> bool {
    c == '(' || c == '"' || c == '*'
}

/// Punctuation stripped from the back of a description token.
pub open spec fn is_trail_punct(c: char) -> bool {
    c == '.' || c == ',' || c == '!' || c == '?' || c == ':' || c == ')' || c == '"' || c == ';'
        || c == '*'
}

/// `s` without its leading punctuation.
pub open spec fn trim_lead(s: Seq<char>) -> Seq<char>
    decreases s.len(),
{
    if s.len() > 0 && is_lead_punct(s[0]) {
        trim_lead(s.drop_first())
    } else {
        s
    }
}

/// `s` without its trailing punctuation.
pub open spec fn trim_trail(s: Seq<char>) -> Seq<char>
    decreases s.len(),
{
    if s.len() > 0 && is_trail_punct(s.last()) {
        trim_trail(s.drop_last())
    } else {
        s
    }
}

/// `s` ends in `'s`.
pub open spec fn ends_possessive(s: Seq<char>) -> bool {
    s.len() >= 2 && s[s.len() - 2] == '\'' && s[s.len() - 1] == 's'
}

/// Removes every trailing `'s`.
pub open spec fn trim_possessive(s: Seq<char>) -> Seq<char>
    decreases s.len(),
{
    if ends_possessive(s) {
        trim_possessive(s.subrange(0, s.len() - 2))
    } else {
        s
    }
}

/// A description token with its surrounding punctuation and possessive removed.
pub open spec fn clean_token(s: Seq<char>) -> Seq<char> {
    trim_possessive(trim_trail(trim_lead(s)))
}

/// ASCII lower-casing of one character.
pub open spec fn lower_char(c: char) -> char {
    if 'A' <= c && c <= 'Z' {
        ((c as u32 + 32) as u32) as char
    } else {
        c
    }
}

/// ASCII lower-casing: every other character is kept.
pub open spec fn lower(s: Seq<char>) -> Seq<char> {
    s.map_values(|c: char| lower_char(c))
}

/// Bytes that `c` takes in UTF-8.
pub open spec fn utf8_width(c: char) -> nat {
    if (c as u32) < 0x80 {
        1
    } else if (c as u32) < 0x800 {
        2
    } else if (c as u32) < 0x10000 {
        3
    } else {
        4
    }
}

/// Bytes that `s` takes in UTF-8: the length of a Rust string.
pub open spec fn utf8_len(s: Seq<char>) -> nat
    decreases s.len(),
{
    if s.len() == 0 {
        0
    } else {
        utf8_len(s.drop_last()) + utf8_width(s.last())
    }
}

/// `w` is the three-letter word `abc`.
pub open spec fn spells3(w: Seq<char>, a: char, b: char, c: char) -> bool {
    w.len() == 3 && w[0] == a && w[1] == b && w[2] == c
}

/// `w` is the four-letter word `abcd`.
pub open spec fn spells4(w: Seq<char>, a: char, b: char, c: char, d: char) -> bool {
    w.len() == 4 && w[0] == a && w[1] == b && w[2] == c && w[3] == d
}

/// The words that are never indexed: for, and, the, with, from, that, your.
pub open spec fn is_stop_word(w: Seq<char>) -> bool {
    spells3(w, 'f', 'o', 'r') || spells3(w, 'a', 'n', 'd') || spells3(w, 't', 'h', 'e')
        || spells4(w, 'w', 'i', 't', 'h') || spells4(w, 'f', 'r', 'o', 'm')
        || spells4(w, 't', 'h', 'a', 't') || spells4(w, 'y', 'o', 'u', 'r')
}

/// `s[a..b]` is a token: a longest stretch of characters that do not break.
pub open spec fn is_run(s: Seq<char>, a: int, b: int, in_name: bool) -> bool {
    &&& 0 <= a < b <= s.len()
    &&& forall|k: int| a <= k < b ==> !breaks(#[trigger] s[k], in_name)
    &&& a == 0 || breaks(s[a - 1], in_name)
    &&& b == s.len() || breaks(s[b], in_name)
}

/// The token `s[a..b]` before lower-casing: description tokens are cleaned,
/// name pieces are taken as they stand.
pub open spec fn piece(s: Seq<char>, a: int, b: int, in_name: bool) -> Seq<char> {
    if in_name {
        s.subrange(a, b)
    } else {
        clean_token(s.subrange(a, b))
    }
}

/// A token is indexed when it is longer than two bytes and, lower-cased,
/// is no stop word.
pub open spec fn indexable(p: Seq<char>) -> bool {
    utf8_len(p) > 2 && !is_stop_word(lower(p))
}

/// The words of the tokens of `s` that end at or before `i`.
pub open spec fn words_upto(s: Seq<char>, i: int, in_name: bool) -> Set<Seq<char>> {
    Set::new(
        |w: Seq<char>|
            exists|a: int, b: int|
                #![trigger is_run(s, a, b, in_name), piece(s, a, b, in_name)]
                is_run(s, a, b, in_name) && b <= i && indexable(piece(s, a, b, in_name)) && w
                    == lower(piece(s, a, b, in_name)),
    )
}

/// The words of a description (`in_name` false) or of a package name.
pub open spec fn words_in(s: Seq<char>, in_name: bool) -> Set<Seq<char>> {
    words_upto(s, s.len() as int, in_name)
}

/// The text of an optional description; an absent one is empty.
pub open spec fn desc_text(d: Option<String>) -> Seq<char> {
    match d {
        Some(s) => s@,
        None => Seq::empty(),
    }
}

/// Every word under which a package with this name and description is indexed.
pub open spec fn record_words(name: Seq<char>, description: Seq<char>) -> Set<Seq<char>> {
    words_in(description, false) + words_in(name, true)
}

/// The strings of `v`, as a set.
pub open spec fn string_set(v: Seq<String>) -> Set<Seq<char>> {
    Set::new(|w: Seq<char>| exists|i: int| 0 <= i < v.len() && #[trigger] v[i]@ == w)
}

/// Relies on str::to_ascii_lowercase: 'A'..='Z' become 'a'..='z', every
/// other character stays.
#[verifier::external_body]
fn ascii_lowercase(s: &str) -> (r: String)
    ensures
        r@ == lower(s@),
{
    s.to_ascii_lowercase()
}

/// The characters of `s`, in order.
pub fn chars_of(s: &str) -> (r: Vec<char>)
    ensures
        r@ == s@,
{
    let mut cs: Vec<char> = Vec::new();
    for c in it: s.chars()
        invariant
            it.seq() == s@,
            cs@ == it.seq().take(it.index() as int),
    {
        cs.push(c);
    }
    cs
}

fn is_lead(c: char) -> (r: bool)
    ensures
        r == is_lead_punct(c),
{
    c == '(' || c == '"' || c == '*'
}

fn is_trail(c: char) -> (r: bool)
    ensures
        r == is_trail_punct(c),
{
    c == '.' || c == ',' || c == '!' || c == '?' || c == ':' || c == ')' || c == '"' || c == ';'
        || c == '*'
}

/// The bounds, within `cs[a..b]`, of that token once cleaned.
fn clean_bounds(cs: &Vec<char>, a: usize, b: usize) -> (r: (usize, usize))
    requires
        a <= b <= cs@.len(),
    ensures
        a <= r.0 <= r.1 <= b,
        cs@.subrange(r.0 as int, r.1 as int) == clean_token(cs@.subrange(a as int, b as int)),
{
    let ghost s = cs@;
    let mut i = a;
    while i < b && is_lead(cs[i])
        invariant
            a <= i <= b <= s.len(),
            s == cs@,
            trim_lead(s.subrange(a as int, b as int)) == trim_lead(s.subrange(i as int, b as int)),
        decreases b - i,
    {
        assert(s.subrange(i as int, b as int).drop_first() =~= s.subrange(i + 1, b as int));
        i += 1;
    }
    assert(trim_lead(s.subrange(i as int, b as int)) == s.subrange(i as int, b as int));
    let mut j = b;
    while j > i && is_trail(cs[j - 1])
        invariant
            a <= i <= j <= b <= s.len(),
            s == cs@,
            trim_trail(s.subrange(i as int, b as int)) == trim_trail(s.subrange(i as int, j as int)),
        decreases j,
    {
        assert(s.subrange(i as int, j as int).drop_last() =~= s.subrange(i as int, j - 1));
        j -= 1;
    }
    assert(trim_trail(s.subrange(i as int, j as int)) == s.subrange(i as int, j as int));
    let ghost mid = j;
    while j - i >= 2 && cs[j - 2] == '\'' && cs[j - 1] == 's'
        invariant
            a <= i <= j <= mid <= b <= s.len(),
            s == cs@,
            trim_possessive(s.subrange(i as int, mid as int)) == trim_possessive(
                s.subrange(i as int, j as int),
            ),
        decreases j,
    {
        let ghost t = s.subrange(i as int, j as int);
        assert(ends_possessive(t));
        assert(t.subrange(0, t.len() - 2) =~= s.subrange(i as int, j - 2));
        j -= 2;
    }
    let ghost t = s.subrange(i as int, j as int);
    assert(!ends_possessive(t));
    (i, j)
}

fn width(c: char) -> (r: usize)
    ensures
        r == utf8_width(c),
{
    let u = c as u32;
    if u < 0x80 {
        1
    } else if u < 0x800 {
        2
    } else if u < 0x10000 {
        3
    } else {
        4
    }
}

proof fn lemma_utf8_len_prefix(s: Seq<char>, k: int)
    requires
        0 <= k <= s.len(),
    ensures
        utf8_len(s.take(k)) <= utf8_len(s),
    decreases s.len(),
{
    if k < s.len() {
        assert(s.drop_last().take(k) =~= s.take(k));
        lemma_utf8_len_prefix(s.drop_last(), k);
    } else {
        assert(s.take(k) =~= s);
    }
}

/// Whether `cs[i..j]` takes more than two bytes in UTF-8.
fn longer_than_two_bytes(cs: &Vec<char>, i: usize, j: usize) -> (r: bool)
    requires
        i <= j <= cs@.len(),
    ensures
        r == (utf8_len(cs@.subrange(i as int, j as int)) > 2),
{
    let mut total: usize = 0;
    let mut k = i;
    while k < j && total <= 2
        invariant
            i <= k <= j <= cs@.len(),
            total == utf8_len(cs@.subrange(i as int, k as int)),
            total <= 6,
        decreases j - k,
    {
        assert(cs@.subrange(i as int, k + 1).drop_last() =~= cs@.subrange(i as int, k as int));
        total = total + width(cs[k]);
        k += 1;
    }
    proof {
        assert(cs@.subrange(i as int, j as int).take(k - i) =~= cs@.subrange(i as int, k as int));
        lemma_utf8_len_prefix(cs@.subrange(i as int, j as int), k - i);
    }
    total > 2
}

fn is_stop(w: &Vec<char>) -> (r: bool)
    ensures
        r == is_stop_word(w@),
{
    if w.len() == 3 {
        let (a, b, c) = (w[0], w[1], w[2]);
        (a == 'f' && b == 'o' && c == 'r') || (a == 'a' && b == 'n' && c == 'd') || (a == 't' && b
            == 'h' && c == 'e')
    } else if w.len() == 4 {
        let (a, b, c, d) = (w[0], w[1], w[2], w[3]);
        (a == 'w' && b == 'i' && c == 't' && d == 'h') || (a == 'f' && b == 'r' && c == 'o' && d
            == 'm') || (a == 't' && b == 'h' && c == 'a' && d == 't') || (a == 'y' && b == 'o' && c
            == 'u' && d == 'r')
    } else {
        false
    }
}

/// The word that the token `cs[a..b]` of `text` gives, if it is indexed.
fn run_word(text: &str, cs: &Vec<char>, a: usize, b: usize, in_name: bool) -> (r: Option<String>)
    requires
        cs@ == text@,
        a <= b <= cs@.len(),
    ensures
        match r {
            Some(w) => indexable(piece(cs@, a as int, b as int, in_name)) && w@ == lower(
                piece(cs@, a as int, b as int, in_name),
            ),
            None => !indexable(piece(cs@, a as int, b as int, in_name)),
        },
{
    let (i, j) = if in_name {
        (a, b)
    } else {
        clean_bounds(cs, a, b)
    };
    assert(cs@.subrange(i as int, j as int) == piece(cs@, a as int, b as int, in_name));
    if !longer_than_two_bytes(cs, i, j) {
        return None;
    }
    let w = ascii_lowercase(text.substring_char(i, j));
    let wc = chars_of(w.as_str());
    if is_stop(&wc) {
        None
    } else {
        Some(w)
    }
}

proof fn lemma_words_skip(s: Seq<char>, i: int, in_name: bool)
    requires
        0 <= i < s.len(),
        breaks(s[i], in_name),
    ensures
        words_upto(s, i + 1, in_name) == words_upto(s, i, in_name),
{
    assert forall|w: Seq<char>| #[trigger]
        words_upto(s, i + 1, in_name).contains(w) implies words_upto(s, i, in_name).contains(w) by {
        let (a, b) = choose|a: int, b: int|
            #![trigger is_run(s, a, b, in_name), piece(s, a, b, in_name)]
            is_run(s, a, b, in_name) && b <= i + 1 && indexable(piece(s, a, b, in_name)) && w
                == lower(piece(s, a, b, in_name));
        if b == i + 1 {
            assert(!breaks(s[b - 1], in_name));
        }
    }
    assert(words_upto(s, i + 1, in_name) =~= words_upto(s, i, in_name));
}

proof fn lemma_words_run(s: Seq<char>, a: int, b: int, in_name: bool)
    requires
        is_run(s, a, b, in_name),
    ensures
        words_upto(s, b, in_name) == (if indexable(piece(s, a, b, in_name)) {
            words_upto(s, a, in_name).insert(lower(piece(s, a, b, in_name)))
        } else {
            words_upto(s, a, in_name)
        }),
{
    let up = if indexable(piece(s, a, b, in_name)) {
        words_upto(s, a, in_name).insert(lower(piece(s, a, b, in_name)))
    } else {
        words_upto(s, a, in_name)
    };
    assert forall|w: Seq<char>| #[trigger] words_upto(s, b, in_name).contains(w) implies up.contains(
        w,
    ) by {
        let (a2, b2) = choose|a2: int, b2: int|
            #![trigger is_run(s, a2, b2, in_name), piece(s, a2, b2, in_name)]
            is_run(s, a2, b2, in_name) && b2 <= b && indexable(piece(s, a2, b2, in_name)) && w
                == lower(piece(s, a2, b2, in_name));
        if b2 > a {
            if b2 < b {
                assert(!breaks(s[b2], in_name));
            }
            if a2 < a {
                assert(!breaks(s[a - 1], in_name));
            }
            if a2 > a {
                assert(!breaks(s[a2 - 1], in_name));
            }
            assert(a2 == a && b2 == b);
        }
    }
    assert forall|w: Seq<char>| #[trigger] up.contains(w) implies words_upto(
        s,
        b,
        in_name,
    ).contains(w) by {
        if !words_upto(s, a, in_name).contains(w) {
            assert(is_run(s, a, b, in_name));
        }
    }
    assert(words_upto(s, b, in_name) =~= up);
}

pub(crate) proof fn lemma_string_set_push(v: Seq<String>, x: String)
    ensures
        string_set(v.push(x)) == string_set(v).insert(x@),
{
    assert forall|w: Seq<char>| #[trigger]
        string_set(v.push(x)).contains(w) implies string_set(v).insert(x@).contains(w) by {
        let i = choose|i: int| 0 <= i < v.push(x).len() && #[trigger] v.push(x)[i]@ == w;
        if i < v.len() {
            assert(v[i]@ == w);
        }
    }
    assert forall|w: Seq<char>| #[trigger]
        string_set(v).insert(x@).contains(w) implies string_set(v.push(x)).contains(w) by {
        if w == x@ {
            assert(v.push(x)[v.len() as int]@ == w);
        } else {
            let i = choose|i: int| 0 <= i < v.len() && #[trigger] v[i]@ == w;
            assert(v.push(x)[i]@ == w);
        }
    }
    assert(string_set(v.push(x)) =~= string_set(v).insert(x@));
}

/// Appends to `out` the words of `text`, read as a description or as a name.
fn collect_words(text: &str, in_name: bool, out: &mut Vec<String>)
    ensures
        string_set(final(out)@) == string_set(old(out)@) + words_in(text@, in_name),
{
    let cs = chars_of(text);
    let n = cs.len();
    let ghost s = cs@;
    proof {
        assert(words_upto(s, 0, in_name) =~= Set::empty());
        assert(string_set(out@) + words_upto(s, 0, in_name) =~= string_set(out@));
    }
    let mut i: usize = 0;
    while i < n
        invariant
            s == cs@,
            s == text@,
            n == s.len(),
            i <= n,
            i == 0 || i == n || breaks(s[i - 1], in_name) || breaks(s[i as int], in_name),
            string_set(out@) == string_set(old(out)@) + words_upto(s, i as int, in_name),
        decreases n - i,
    {
        if is_break(cs[i], in_name) {
            proof {
                lemma_words_skip(s, i as int, in_name);
            }
            i += 1;
        } else {
            let a = i;
            while i < n && !is_break(cs[i], in_name)
                invariant
                    s == cs@,
                    n == s.len(),
                    a <= i <= n,
                    forall|k: int| a <= k < i ==> !breaks(#[trigger] s[k], in_name),
                decreases n - i,
            {
                i += 1;
            }
            proof {
                lemma_words_run(s, a as int, i as int, in_name);
            }
            match run_word(text, &cs, a, i, in_name) {
                Some(w) => {
                    proof {
                        lemma_string_set_push(out@, w);
                    }
                    out.push(w);
                    assert(string_set(out@) =~= string_set(old(out)@) + words_upto(
                        s,
                        i as int,
                        in_name,
                    ));
                },
                None => {},
            }
        }
    }
}

fn is_break(c: char, in_name: bool) -> (r: bool)
    ensures
        r == breaks(c, in_name),
{
    if in_name {
        c == '-' || c == '_'
    } else {
        c == ' ' || c == '\t' || c == '\n' || c == '\x0C' || c == '\r'
    }
}

/// The words under which a package with this name and description is
/// indexed. Duplicates may occur; as a set the result is exactly
/// `record_words`.
pub fn tokenize(name: &String, description: &Option<String>) -> (r: Vec<String>)
    ensures
        string_set(r@) == record_words(name@, desc_text(*description)),
{
    let mut out: Vec<String> = Vec::new();
    proof {
        assert(string_set(out@) =~= Set::empty());
    }
    match description {
        Some(d) => collect_words(d.as_str(), false, &mut out),
        None => {
            assert(words_in(Seq::empty(), false) =~= Set::empty());
        },
    }
    collect_words(name.as_str(), true, &mut out);
    proof {
        assert(string_set(out@) =~= record_words(name@, desc_text(*description)));
    }
    out
}

proof fn lemma_lower_utf8_len(p: Seq<char>)
    ensures
        utf8_len(lower(p)) == utf8_len(p),
    decreases p.len(),
{
    if p.len() > 0 {
        assert(lower(p).drop_last() =~= lower(p.drop_last()));
        lemma_lower_utf8_len(p.drop_last());
    }
}

proof fn lemma_lower_idempotent(p: Seq<char>)
    ensures
        lower(lower(p)) == lower(p),
{
    assert(lower(lower(p)) =~= lower(p));
}

/// Every indexed word is lower-case, longer than two bytes and no stop word.
pub proof fn lemma_word_shape(name: Seq<char>, description: Seq<char>, w: Seq<char>)
    requires
        record_words(name, description).contains(w),
    ensures
        utf8_len(w) > 2,
        !is_stop_word(w),
        lower(w) == w,
{
    let in_name = !words_in(description, false).contains(w);
    let s = if in_name {
        name
    } else {
        description
    };
    let (a, b) = choose|a: int, b: int|
        #![trigger is_run(s, a, b, in_name), piece(s, a, b, in_name)]
        is_run(s, a, b, in_name) && b <= s.len() && indexable(piece(s, a, b, in_name)) && w
            == lower(piece(s, a, b, in_name));
    lemma_lower_utf8_len(piece(s, a, b, in_name));
    lemma_lower_idempotent(piece(s, a, b, in_name));
}

/// Tokenizing an indexed word again, as a description of its own, gives
/// back that word alone, provided the word holds no whitespace and has no
/// punctuation or possessive that cleaning would strip (a name piece can
/// have either).
pub proof fn lemma_retokenize(name: Seq<char>, description: Seq<char>, w: Seq<char>)
    requires
        record_words(name, description).contains(w),
        forall|k: int| 0 <= k < w.len() ==> !is_ws(#[trigger] w[k]),
        clean_token(w) == w,
    ensures
        record_words(Seq::empty(), w) == set![w],
{
    lemma_word_shape(name, description, w);
    assert(w.len() > 0);
    assert(w.subrange(0, w.len() as int) =~= w);
    assert(is_run(w, 0, w.len() as int, false));
    assert(piece(w, 0, w.len() as int, false) == w);
    assert forall|v: Seq<char>| #[trigger] words_in(w, false).contains(v) implies v == w by {
        let (a, b) = choose|a: int, b: int|
            #![trigger is_run(w, a, b, false), piece(w, a, b, false)]
            is_run(w, a, b, false) && b <= w.len() && indexable(piece(w, a, b, false)) && v
                == lower(piece(w, a, b, false));
        if a > 0 {
            assert(!is_ws(w[a - 1]));
        }
        if b < w.len() {
            assert(!is_ws(w[b]));
        }
    }
    assert(words_in(w, false).contains(w));
    assert(words_in(Seq::empty(), true) =~= Set::empty());
    assert(record_words(Seq::empty(), w) =~= set![w]);
}

/// The fields of `s` between commas, empty ones included: a string with
/// `n` commas has `n + 1` fields.
pub open spec fn comma_fields(s: Seq<char>) -> Seq<Seq<char>>
    decreases s.len(),
{
    if s.len() == 0 {
        seq![Seq::empty()]
    } else {
        let f = comma_fields(s.drop_last());
        if s.last() == ',' {
            f.push(Seq::empty())
        } else {
            f.update(f.len() - 1, f.last().push(s.last()))
        }
    }
}

proof fn lemma_comma_fields_len(s: Seq<char>)
    ensures
        comma_fields(s).len() >= 1,
    decreases s.len(),
{
    if s.len() > 0 {
        lemma_comma_fields_len(s.drop_last());
    }
}

/// Splits a comma-separated list of query terms.
pub fn split_commas(s: &str) -> (r: Vec<String>)
    ensures
        r@.map_values(|t: String| t@) == comma_fields(s@),
{
    let cs = chars_of(s);
    let ghost v = s@;
    let mut out: Vec<String> = Vec::new();
    let mut start: usize = 0;
    let mut k: usize = 0;
    proof {
        assert(v.take(0) =~= Seq::<char>::empty());
        assert(out@.map_values(|t: String| t@).push(v.subrange(0, 0)) =~= comma_fields(v.take(0)));
    }
    while k < cs.len()
        invariant
            cs@ == v,
            v == s@,
            start <= k <= v.len(),
            out@.map_values(|t: String| t@).push(v.subrange(start as int, k as int)) == comma_fields(
                v.take(k as int),
            ),
        decreases v.len() - k,
    {
        let ghost prev = out@.map_values(|t: String| t@);
        proof {
            assert(v.take(k + 1).drop_last() =~= v.take(k as int));
            assert(v.take(k + 1).last() == v[k as int]);
        }
        if cs[k] == ',' {
            let field = s.substring_char(start, k).to_owned();
            let ghost fv = v.subrange(start as int, k as int);
            out.push(field);
            start = k + 1;
            proof {
                assert(out@.map_values(|t: String| t@) =~= prev.push(fv));
            }
        }
        proof {
            if v[k as int] != ',' {
                assert(v.subrange(start as int, k + 1) =~= v.subrange(start as int, k as int).push(v[k as int]));
                assert(out@.map_values(|t: String| t@).push(v.subrange(start as int, k + 1)) =~= comma_fields(v.take(k + 1)));
            } else {
                assert(v.subrange(start as int, k + 1) =~= Seq::<char>::empty());
                assert(out@.map_values(|t: String| t@).push(v.subrange(start as int, k + 1)) =~= comma_fields(v.take(k + 1)));
            }
        }
        k += 1;
    }
    let last = s.substring_char(start, k).to_owned();
    out.push(last);
    assert(v.take(k as int) =~= v);
    assert(out@.map_values(|t: String| t@) =~= comma_fields(v));
    out
}

} // verus!
