//! Character-level text helpers used by the process list.
use vstd::prelude::*;

verus! {

/// A character is an ASCII decimal digit.
pub open spec fn is_digit(c: char) -> bool {
    '0' <= c && c <= '9'
}

/// Whether `c` is an ASCII decimal digit.
pub fn char_is_digit(c: char) -> (r: bool)
    ensures
        r == is_digit(c),
{
    '0' <= c && c <= '9'
}


/// The characters of `s`, in order.
pub fn chars_of(s: &str) -> (v: Vec<char>)
    ensures
        v@ == s@,
{
    let mut v: Vec<char> = Vec::new();
    for c in it: s.chars()
        invariant
            v@ == it.seq().take(it.index() as int),
            it.seq() == s@,
    {
        v.push(c);
    }
    v
}

/// Appends one character to a string (`String::push`).
#[verifier::external_body]
pub(crate) fn push_char(s: &mut String, c: char)
    ensures
        final(s)@ == old(s)@.push(c),
{
    s.push(c);
}

/// Removes the last character of a string, if any (`String::pop`).
#[verifier::external_body]
pub(crate) fn pop_char(s: &mut String) -> (r: Option<char>)
    ensures
        old(s)@.len() > 0 ==> final(s)@ == old(s)@.drop_last() && r == Some(old(s)@.last()),
        old(s)@.len() == 0 ==> final(s)@ == old(s)@ && r is None,
{
    s.pop()
}

/// A string made of the characters `v[lo..hi]`.
pub fn string_of(v: &Vec<char>, lo: usize, hi: usize) -> (s: String)
    requires
        lo <= hi <= v.len(),
    ensures
        s@ == v@.subrange(lo as int, hi as int),
{
    let mut s = String::new();
    let mut i: usize = lo;
    while i < hi
        invariant
            lo <= i <= hi <= v.len(),
            s@ == v@.subrange(lo as int, i as int),
        decreases hi - i,
    {
        push_char(&mut s, v[i]);
        assert(v@.subrange(lo as int, i as int).push(v@[i as int]) =~= v@.subrange(lo as int, i + 1));
        i += 1;
    }
    s
}


/// `parts` joined with `sep` between consecutive parts.
pub open spec fn join(parts: Seq<Seq<char>>, sep: Seq<char>) -> Seq<char>
    decreases parts.len(),
{
    if parts.len() == 0 {
        Seq::empty()
    } else if parts.len() == 1 {
        parts[0]
    } else {
        join(parts.drop_last(), sep) + sep + parts.last()
    }
}

/// The texts of a list of strings.
pub open spec fn texts(v: Seq<String>) -> Seq<Seq<char>> {
    v.map_values(|s: String| s@)
}

/// Joins strings with a separator (`[String]::join`).
pub fn join_strings(parts: &Vec<String>, sep: &str) -> (r: String)
    ensures
        r@ == join(texts(parts@), sep@),
{
    let mut r = String::new();
    let mut i: usize = 0;
    while i < parts.len()
        invariant
            i <= parts.len(),
            r@ == join(texts(parts@).take(i as int), sep@),
        decreases parts.len() - i,
    {
        let ghost t = texts(parts@);
        assert(t.take(i + 1).drop_last() =~= t.take(i as int));
        if i != 0 {
            r.append(sep);
        }
        r.append(parts[i].as_str());
        assert(t.take(i + 1).last() == parts@[i as int]@);
        if i == 0 {
            assert(t.take(1).len() == 1);
        }
        i += 1;
    }
    assert(texts(parts@).take(parts.len() as int) =~= texts(parts@));
    r
}


/// Unicode White_Space, the property `char::is_whitespace` tests.
pub open spec fn is_ws(c: char) -> bool {
    ('\u{9}' <= c && c <= '\u{d}') || c == ' ' || c == '\u{85}' || c == '\u{a0}' || c
        == '\u{1680}' || ('\u{2000}' <= c && c <= '\u{200a}') || c == '\u{2028}' || c
        == '\u{2029}' || c == '\u{202f}' || c == '\u{205f}' || c == '\u{3000}'
}

/// Whether `c` is white space (`char::is_whitespace`).
pub fn char_is_ws(c: char) -> (r: bool)
    ensures
        r == is_ws(c),
{
    ('\u{9}' <= c && c <= '\u{d}') || c == ' ' || c == '\u{85}' || c == '\u{a0}' || c
        == '\u{1680}' || ('\u{2000}' <= c && c <= '\u{200a}') || c == '\u{2028}' || c
        == '\u{2029}' || c == '\u{202f}' || c == '\u{205f}' || c == '\u{3000}'
}

/// The maximal runs of non-white-space characters of `s`, in order
/// (what `str::split_whitespace` yields).
pub open spec fn words(s: Seq<char>) -> Seq<Seq<char>>
    decreases s.len(),
{
    if s.len() == 0 {
        Seq::empty()
    } else {
        let w = words(s.drop_last());
        let c = s.last();
        if is_ws(c) {
            w
        } else if s.len() >= 2 && !is_ws(s[s.len() - 2]) {
            w.update(w.len() - 1, w.last().push(c))
        } else {
            w.push(seq![c])
        }
    }
}

/// A text that ends in a non-space character has at least one word.
pub proof fn lemma_words_nonempty(s: Seq<char>)
    requires
        s.len() > 0,
        !is_ws(s.last()),
    ensures
        words(s).len() > 0,
    decreases s.len(),
{
    if s.len() >= 2 && !is_ws(s[s.len() - 2]) {
        lemma_words_nonempty(s.drop_last());
    }
}

/// The white-space separated words of `s` (`str::split_whitespace`).
pub fn split_whitespace(s: &str) -> (r: Vec<String>)
    ensures
        texts(r@) == words(s@),
{
    let cs = chars_of(s);
    let mut out: Vec<String> = Vec::new();
    let mut cur = String::new();
    let mut in_word = false;
    let mut i: usize = 0;
    while i < cs.len()
        invariant
            cs@ == s@,
            i <= cs.len(),
            in_word ==> i > 0 && !is_ws(cs@[i - 1]),
            !in_word ==> (i == 0 || is_ws(cs@[i - 1])),
            in_word ==> words(cs@.take(i as int)) == texts(out@).push(cur@),
            !in_word ==> words(cs@.take(i as int)) == texts(out@),
        decreases cs.len() - i,
    {
        let c = cs[i];
        let ghost pre = cs@.take(i as int);
        let ghost post = cs@.take(i + 1);
        assert(post.drop_last() =~= pre);
        assert(post.last() == c);
        if char_is_ws(c) {
            if in_word {
                let ghost cv = cur@;
                let w = cur;
                out.push(w);
                cur = String::new();
                in_word = false;
                assert(texts(out@) =~= texts(out@).drop_last().push(cv));
            }
        } else {
            let ghost before = texts(out@);
            let ghost cv = cur@;
            if in_word {
                assert(post[post.len() - 2] == cs@[i - 1]);
                push_char(&mut cur, c);
                assert(words(post) =~= before.push(cv.push(c)));
            } else {
                cur = String::new();
                push_char(&mut cur, c);
                if i > 0 {
                    assert(post[post.len() - 2] == cs@[i - 1]);
                }
                in_word = true;
                assert(words(post) =~= before.push(seq![c]));
            }
        }
        i += 1;
    }
    assert(cs@.take(cs.len() as int) =~= cs@);
    if in_word {
        let ghost cv = cur@;
        out.push(cur);
        assert(texts(out@) =~= texts(out@).drop_last().push(cv));
    }
    out
}

/// `pat` occurs in `t` starting at position `i`.
pub open spec fn occurs_at(t: Seq<char>, pat: Seq<char>, i: int) -> bool {
    0 <= i && i + pat.len() <= t.len() && t.subrange(i, i + pat.len()) == pat
}

/// `pat` occurs somewhere in `t` (every text contains the empty pattern).
pub open spec fn contains_text(t: Seq<char>, pat: Seq<char>) -> bool {
    exists|i: int| occurs_at(t, pat, i)
}

/// Whether `pat` occurs in `t` at position `i`.
fn occurs_at_exec(t: &Vec<char>, pat: &Vec<char>, i: usize) -> (r: bool)
    requires
        i + pat.len() <= t.len(),
    ensures
        r == occurs_at(t@, pat@, i as int),
{
    let mut j: usize = 0;
    while j < pat.len()
        invariant
            i + pat.len() <= t.len(),
            j <= pat.len(),
            forall|k: int| 0 <= k < j ==> t@[i + k] == pat@[k],
        decreases pat.len() - j,
    {
        if t[i + j] != pat[j] {
            assert(t@.subrange(i as int, i + pat.len())[j as int] != pat@[j as int]);
            return false;
        }
        j += 1;
    }
    assert(t@.subrange(i as int, i + pat.len()) =~= pat@);
    true
}

/// Whether `pat` occurs in `t` (`str::contains` with a string pattern).
pub fn contains_str(t: &str, pat: &str) -> (r: bool)
    ensures
        r == contains_text(t@, pat@),
{
    let tv = chars_of(t);
    let pv = chars_of(pat);
    if pv.len() > tv.len() {
        return false;
    }
    let last = tv.len() - pv.len();
    let mut i: usize = 0;
    while i <= last
        invariant
            tv@ == t@,
            pv@ == pat@,
            last + pv.len() == tv.len(),
            i <= last + 1,
            forall|k: int| 0 <= k < i ==> !occurs_at(tv@, pv@, k),
        decreases last + 1 - i,
    {
        if occurs_at_exec(&tv, &pv, i) {
            return true;
        }
        if i == last {
            return false;
        }
        i += 1;
    }
    false
}

/// The lowercase form of a text, as `str::to_lowercase` computes it.
pub uninterp spec fn lowercase(s: Seq<char>) -> Seq<char>;

/// An ASCII character.
pub open spec fn is_ascii_char(c: char) -> bool {
    c <= '\u{7f}'
}

/// Every character of the text is ASCII.
pub open spec fn ascii_text(s: Seq<char>) -> bool {
    forall|i: int| 0 <= i < s.len() ==> is_ascii_char(#[trigger] s[i])
}

/// An ASCII uppercase letter.
pub open spec fn is_ascii_upper(c: char) -> bool {
    'A' <= c && c <= 'Z'
}

/// `A`-`Z` lowered to `a`-`z`; every other character kept.
pub open spec fn ascii_lower_char(c: char) -> char {
    if is_ascii_upper(c) {
        ((c as int) + 32) as char
    } else {
        c
    }
}

/// The text with `A`-`Z` lowered to `a`-`z` and every other character kept.
pub open spec fn ascii_lower(s: Seq<char>) -> Seq<char> {
    s.map_values(|c: char| ascii_lower_char(c))
}

/// Calls `str::to_lowercase`; the result is the text's lowercase form, which
/// depends on the text alone. For an ASCII text it is the text with `A`-`Z`
/// lowered to `a`-`z`: the Unicode lowercase mapping that it applies takes
/// `A`-`Z` to `a`-`z` and keeps every other ASCII character, with no context
/// rule touching them. What it is for other texts is not stated here.
#[verifier::external_body]
pub(crate) fn to_lowercase(s: &str) -> (r: String)
    ensures
        r@ == lowercase(s@),
        ascii_text(s@) ==> r@ == ascii_lower(s@),
{
    s.to_lowercase()
}

/// Whether a character has the Unicode Uppercase property, as `char::is_uppercase` tests.
pub uninterp spec fn uppercase(c: char) -> bool;

/// Calls `char::is_uppercase`; the result depends on the character alone. The
/// ASCII characters with the property are exactly `A`-`Z`; which other
/// characters have it is not stated here.
#[verifier::external_body]
pub(crate) fn char_is_uppercase(c: char) -> (r: bool)
    ensures
        r == uppercase(c),
        is_ascii_char(c) ==> (r <==> is_ascii_upper(c)),
{
    c.is_uppercase()
}

/// The pieces of `s` between occurrences of `sep`, in order; a text without
/// `sep` is one piece (what `str::split` with a character pattern yields).
pub open spec fn split_on(s: Seq<char>, sep: char) -> Seq<Seq<char>>
    decreases s.len(),
{
    if s.len() == 0 {
        seq![Seq::empty()]
    } else {
        let p = split_on(s.drop_last(), sep);
        if s.last() == sep {
            p.push(Seq::empty())
        } else {
            p.update(p.len() - 1, p.last().push(s.last()))
        }
    }
}

/// Splitting always yields at least one piece.
pub proof fn lemma_split_on_nonempty(s: Seq<char>, sep: char)
    ensures
        split_on(s, sep).len() >= 1,
    decreases s.len(),
{
    if s.len() > 0 {
        lemma_split_on_nonempty(s.drop_last(), sep);
    }
}

/// The pieces of `s` between occurrences of `sep` (`str::split`).
pub fn split_char(s: &str, sep: char) -> (r: Vec<String>)
    ensures
        texts(r@) == split_on(s@, sep),
        r@.len() >= 1,
{
    let cs = chars_of(s);
    let mut out: Vec<String> = Vec::new();
    let mut cur = String::new();
    let mut i: usize = 0;
    while i < cs.len()
        invariant
            cs@ == s@,
            i <= cs.len(),
            split_on(cs@.take(i as int), sep) == texts(out@).push(cur@),
        decreases cs.len() - i,
    {
        let c = cs[i];
        let ghost pre = cs@.take(i as int);
        let ghost post = cs@.take(i + 1);
        assert(post.drop_last() =~= pre);
        let ghost before = texts(out@);
        let ghost cv = cur@;
        if c == sep {
            let w = cur;
            out.push(w);
            cur = String::new();
            assert(texts(out@) =~= before.push(cv));
            assert(split_on(post, sep) =~= before.push(cv).push(Seq::empty()));
        } else {
            push_char(&mut cur, c);
            assert(split_on(post, sep) =~= before.push(cv.push(c)));
        }
        i += 1;
    }
    assert(cs@.take(cs.len() as int) =~= cs@);
    let ghost before = texts(out@);
    let ghost cv = cur@;
    out.push(cur);
    assert(texts(out@) =~= before.push(cv));
    out
}

/// A piece without a final carriage return.
pub open spec fn strip_cr(p: Seq<char>) -> Seq<char> {
    if p.len() > 0 && p.last() == '\r' {
        p.drop_last()
    } else {
        p
    }
}

/// The lines of `s` (what `str::lines` yields): the pieces between line feeds,
/// each without the carriage return that precedes its line feed; the piece after
/// the last line feed is a line only when it is not empty, and keeps any final
/// carriage return.
pub open spec fn lines_of(s: Seq<char>) -> Seq<Seq<char>> {
    let p = split_on(s, '\n');
    let body = p.drop_last().map_values(|q: Seq<char>| strip_cr(q));
    if p.last().len() == 0 {
        body
    } else {
        body.push(p.last())
    }
}

/// The lines of `s` (`str::lines`).
pub fn lines(s: &str) -> (r: Vec<String>)
    ensures
        texts(r@) == lines_of(s@),
{
    let pieces = split_char(s, '\n');
    let n = pieces.len();
    let mut out: Vec<String> = Vec::new();
    let mut i: usize = 0;
    while i + 1 < n
        invariant
            n == pieces@.len(),
            n >= 1,
            i <= n - 1,
            texts(out@) == texts(pieces@).take(i as int).map_values(|q: Seq<char>| strip_cr(q)),
        decreases n - i,
    {
        let cs = chars_of(pieces[i].as_str());
        let stripped = if cs.len() > 0 && cs[cs.len() - 1] == '\r' {
            string_of(&cs, 0, cs.len() - 1)
        } else {
            string_of(&cs, 0, cs.len())
        };
        proof {
            if cs.len() > 0 && cs@[cs.len() - 1] == '\r' {
                assert(cs@.subrange(0, cs.len() - 1) =~= cs@.drop_last());
            } else {
                assert(cs@.subrange(0, cs.len() as int) =~= cs@);
            }
        }
        let ghost before = texts(out@);
        out.push(stripped);
        assert(texts(out@) =~= before.push(stripped@));
        assert(texts(pieces@).take(i + 1) =~= texts(pieces@).take(i as int).push(texts(pieces@)[i as int]));
        assert(texts(out@) =~= texts(pieces@).take(i + 1).map_values(|q: Seq<char>| strip_cr(q)));
        i += 1;
    }
    assert(texts(pieces@).take(n - 1) =~= texts(pieces@).drop_last());
    let last = &pieces[n - 1];
    if !last.as_str().is_empty() {
        let ghost before = texts(out@);
        out.push(last.clone());
        assert(texts(out@) =~= before.push(last@));
    }
    out
}


/// `s` without its leading white space.
pub open spec fn trim_start(s: Seq<char>) -> Seq<char>
    decreases s.len(),
{
    if s.len() > 0 && is_ws(s[0]) {
        trim_start(s.drop_first())
    } else {
        s
    }
}

/// `s` without its trailing white space.
pub open spec fn trim_end(s: Seq<char>) -> Seq<char>
    decreases s.len(),
{
    if s.len() > 0 && is_ws(s.last()) {
        trim_end(s.drop_last())
    } else {
        s
    }
}

/// `s` without leading and trailing white space.
pub open spec fn trim_text(s: Seq<char>) -> Seq<char> {
    trim_end(trim_start(s))
}

/// `s` without leading and trailing white space (`str::trim`).
pub fn trim(s: &str) -> (r: String)
    ensures
        r@ == trim_text(s@),
{
    let cs = chars_of(s);
    let n = cs.len();
    let mut i: usize = 0;
    assert(cs@.subrange(0, n as int) =~= cs@);
    while i < n && char_is_ws(cs[i])
        invariant
            cs@ == s@,
            n == cs.len(),
            i <= n,
            trim_start(cs@) == trim_start(cs@.subrange(i as int, n as int)),
        decreases n - i,
    {
        assert(cs@.subrange(i as int, n as int).drop_first() =~= cs@.subrange(i + 1, n as int));
        i += 1;
    }
    assert(trim_start(cs@.subrange(i as int, n as int)) == cs@.subrange(i as int, n as int));
    let mut j: usize = n;
    while j > i && char_is_ws(cs[j - 1])
        invariant
            cs@ == s@,
            n == cs.len(),
            i <= j <= n,
            trim_end(cs@.subrange(i as int, n as int)) == trim_end(cs@.subrange(i as int, j as int)),
        decreases j,
    {
        assert(cs@.subrange(i as int, j as int).drop_last() =~= cs@.subrange(i as int, j - 1));
        j -= 1;
    }
    string_of(&cs, i, j)
}

/// `s` with every `from` replaced by `to`.
pub open spec fn replace_char_text(s: Seq<char>, from: char, to: char) -> Seq<char> {
    s.map_values(|c: char| if c == from { to } else { c })
}

/// `s` with every `from` replaced by `to` (`str::replace` with character patterns).
pub fn replace_char(s: &str, from: char, to: char) -> (r: String)
    ensures
        r@ == replace_char_text(s@, from, to),
{
    let cs = chars_of(s);
    let mut r = String::new();
    let mut i: usize = 0;
    while i < cs.len()
        invariant
            cs@ == s@,
            i <= cs.len(),
            r@ == replace_char_text(cs@.take(i as int), from, to),
        decreases cs.len() - i,
    {
        let c = cs[i];
        push_char(&mut r, if c == from { to } else { c });
        assert(replace_char_text(cs@.take(i + 1), from, to) =~= replace_char_text(cs@.take(i as int), from, to).push(if c == from { to } else { c }));
        i += 1;
    }
    assert(cs@.take(cs.len() as int) =~= cs@);
    r
}

/// The part of `s` after its last `/` (all of `s` when it has none).
pub open spec fn base_name(s: Seq<char>) -> Seq<char>
    decreases s.len(),
{
    if s.len() == 0 {
        s
    } else if s.last() == '/' {
        Seq::empty()
    } else {
        base_name(s.drop_last()).push(s.last())
    }
}

/// The part of `s` after its last `/` (`s.rsplit('/').next()`).
pub fn after_last_slash(s: &str) -> (r: String)
    ensures
        r@ == base_name(s@),
{
    let cs = chars_of(s);
    let mut start: usize = 0;
    let mut i: usize = 0;
    while i < cs.len()
        invariant
            cs@ == s@,
            start <= i <= cs.len(),
            base_name(cs@.take(i as int)) == cs@.subrange(start as int, i as int),
        decreases cs.len() - i,
    {
        assert(cs@.take(i + 1).drop_last() =~= cs@.take(i as int));
        if cs[i] == '/' {
            start = i + 1;
            assert(cs@.subrange(start as int, i + 1) =~= Seq::<char>::empty());
        } else {
            assert(cs@.subrange(start as int, i + 1) =~= cs@.subrange(start as int, i as int).push(cs@[i as int]));
        }
        i += 1;
    }
    assert(cs@.take(cs.len() as int) =~= cs@);
    string_of(&cs, start, cs.len())
}

/// The value of a run of decimal digits.
pub open spec fn digits_value(d: Seq<char>) -> int
    decreases d.len(),
{
    if d.len() == 0 {
        0
    } else {
        digits_value(d.drop_last()) * 10 + (d.last() as int - '0' as int)
    }
}

/// Every character is a decimal digit.
pub open spec fn all_digits(d: Seq<char>) -> bool {
    forall|i: int| 0 <= i < d.len() ==> is_digit(d[i])
}

/// A digit run is worth at least as much as any of its prefixes.
pub proof fn lemma_digits_value_grows(d: Seq<char>, k: int)
    requires
        all_digits(d),
        0 <= k <= d.len(),
    ensures
        0 <= digits_value(d.take(k)) <= digits_value(d),
    decreases d.len(),
{
    if k < d.len() {
        assert(all_digits(d.drop_last()));
        lemma_digits_value_grows(d.drop_last(), k);
        assert(d.drop_last().take(k) =~= d.take(k));
        lemma_digits_value_grows(d.drop_last(), d.len() - 1);
        assert(d.drop_last().take(d.len() - 1) =~= d.drop_last());
    } else {
        assert(d.take(k) =~= d);
        if d.len() > 0 {
            assert(all_digits(d.drop_last()));
            lemma_digits_value_grows(d.drop_last(), d.len() - 1);
            assert(d.drop_last().take(d.len() - 1) =~= d.drop_last());
        }
    }
}

/// The integer written by `s`: an optional `+` or `-` followed by one or more
/// decimal digits (`-` only where `signed`), with no other character.
pub open spec fn int_text_value(s: Seq<char>, signed: bool) -> Option<int> {
    if s.len() > 0 && s[0] == '-' && signed {
        let d = s.drop_first();
        if d.len() > 0 && all_digits(d) {
            Some(-digits_value(d))
        } else {
            None
        }
    } else if s.len() > 0 && s[0] == '+' {
        let d = s.drop_first();
        if d.len() > 0 && all_digits(d) {
            Some(digits_value(d))
        } else {
            None
        }
    } else if s.len() > 0 && all_digits(s) {
        Some(digits_value(s))
    } else {
        None
    }
}

/// What `str::parse::<i32>` gives: the value when the text writes an integer in range.
pub open spec fn parse_i32_text(s: Seq<char>) -> Option<i32> {
    match int_text_value(s, true) {
        Some(v) => if i32::MIN <= v <= i32::MAX {
            Some(v as i32)
        } else {
            None
        },
        None => None,
    }
}

/// What `str::parse::<u32>` gives: the value when the text writes an unsigned integer in range.
pub open spec fn parse_u32_text(s: Seq<char>) -> Option<u32> {
    match int_text_value(s, false) {
        Some(v) => if 0 <= v <= u32::MAX {
            Some(v as u32)
        } else {
            None
        },
        None => None,
    }
}

/// The value of the digits `cs[start..]` when all are digits, there is at least
/// one, and the value is at most 2^32.
fn digits_at(cs: &Vec<char>, start: usize) -> (r: Option<u64>)
    requires
        start <= cs.len(),
    ensures
        ({
            let d = cs@.subrange(start as int, cs.len() as int);
            match r {
                Some(v) => d.len() > 0 && all_digits(d) && v == digits_value(d) && v <= 0x1_0000_0000,
                None => !(d.len() > 0 && all_digits(d) && digits_value(d) <= 0x1_0000_0000),
            }
        }),
{
    let ghost d = cs@.subrange(start as int, cs.len() as int);
    if start == cs.len() {
        return None;
    }
    let mut acc: u64 = 0;
    let mut i: usize = start;
    while i < cs.len()
        invariant
            start < cs.len(),
            d == cs@.subrange(start as int, cs.len() as int),
            start <= i <= cs.len(),
            all_digits(d.take(i - start)),
            acc == digits_value(d.take(i - start)),
            acc <= 0x1_0000_0000,
        decreases cs.len() - i,
    {
        let c = cs[i];
        assert(d.take(i + 1 - start).drop_last() =~= d.take(i - start));
        assert(d.take(i + 1 - start).last() == c);
        if !char_is_digit(c) {
            assert(d[i - start] == c);
            return None;
        }
        let v = (c as u32 - '0' as u32) as u64;
        let next = acc * 10 + v;
        if next > 0x1_0000_0000 {
            proof {
                assert(all_digits(d.take(i + 1 - start)));
                if all_digits(d) {
                    lemma_digits_value_grows(d, i + 1 - start);
                }
            }
            return None;
        }
        acc = next;
        i += 1;
    }
    assert(d.take(i - start) =~= d);
    Some(acc)
}

/// A run of one or more decimal digits worth at most 2^32.
pub open spec fn small_digits(d: Seq<char>) -> bool {
    d.len() > 0 && all_digits(d) && digits_value(d) <= 0x1_0000_0000
}

/// The value of `s` when it is a run of one or more decimal digits worth at most 2^32.
pub fn read_digits(s: &str) -> (r: Option<u64>)
    ensures
        match r {
            Some(v) => small_digits(s@) && v == digits_value(s@),
            None => !small_digits(s@),
        },
{
    let cs = chars_of(s);
    assert(cs@.subrange(0, cs.len() as int) =~= cs@);
    digits_at(&cs, 0)
}

/// Reads a decimal integer (`str::parse::<i32>`).
pub fn parse_i32(s: &str) -> (r: Option<i32>)
    ensures
        r == parse_i32_text(s@),
{
    let cs = chars_of(s);
    if cs.len() == 0 {
        return None;
    }
    let neg = cs[0] == '-';
    let start: usize = if cs[0] == '-' || cs[0] == '+' { 1 } else { 0 };
    let ghost d = cs@.subrange(start as int, cs.len() as int);
    proof {
        if start == 1 {
            assert(d =~= cs@.drop_first());
        } else {
            assert(d =~= cs@);
        }
    }
    match digits_at(&cs, start) {
        Some(m) => {
            if neg {
                if m <= 0x8000_0000 {
                    Some((0 - (m as i64)) as i32)
                } else {
                    None
                }
            } else {
                if m <= 0x7fff_ffff {
                    Some(m as i32)
                } else {
                    None
                }
            }
        },
        None => None,
    }
}

/// Reads an unsigned decimal integer (`str::parse::<u32>`).
pub fn parse_u32(s: &str) -> (r: Option<u32>)
    ensures
        r == parse_u32_text(s@),
{
    let cs = chars_of(s);
    if cs.len() == 0 {
        return None;
    }
    let start: usize = if cs[0] == '+' { 1 } else { 0 };
    let ghost d = cs@.subrange(start as int, cs.len() as int);
    proof {
        if start == 1 {
            assert(d =~= cs@.drop_first());
        } else {
            assert(d =~= cs@);
        }
    }
    if cs[0] == '-' {
        assert(!is_digit(cs@[0]));
        return None;
    }
    match digits_at(&cs, start) {
        Some(m) => {
            if m <= 0xffff_ffff {
                Some(m as u32)
            } else {
                None
            }
        },
        None => None,
    }
}

/// The character of a decimal digit.
pub open spec fn digit_char(d: nat) -> char {
    (d + '0' as nat) as char
}

/// The decimal numeral of `n`, without leading zeros.
pub open spec fn decimal(n: nat) -> Seq<char>
    decreases n,
{
    if n < 10 {
        seq![digit_char(n)]
    } else {
        decimal(n / 10).push(digit_char(n % 10))
    }
}

/// The decimal numeral of an integer, with `-` before a negative one.
pub open spec fn signed_decimal(i: int) -> Seq<char> {
    if i < 0 {
        seq!['-'] + decimal((-i) as nat)
    } else {
        decimal(i as nat)
    }
}

/// Appends the decimal numeral of `n`.
fn push_decimal(s: &mut String, n: u64)
    ensures
        final(s)@ == old(s)@ + decimal(n as nat),
    decreases n,
{
    if n >= 10 {
        push_decimal(s, n / 10);
    }
    let d = (n % 10) as u8;
    push_char(s, (d + 48u8) as char);
    proof {
        assert((d + 48u8) as char == digit_char((n % 10) as nat));
        if n >= 10 {
            assert(decimal(n as nat) == decimal((n / 10) as nat).push(digit_char((n % 10) as nat)));
        } else {
            assert(decimal(n as nat) == seq![digit_char(n as nat)]);
        }
    }
}

/// The decimal numeral of an `i32` (its `to_string`).
pub fn i32_to_string(x: i32) -> (r: String)
    ensures
        r@ == signed_decimal(x as int),
{
    let mut s = String::new();
    if x < 0 {
        push_char(&mut s, '-');
        push_decimal(&mut s, (0 - (x as i64)) as u64);
    } else {
        push_decimal(&mut s, x as u64);
    }
    s
}

/// The decimal numeral of a `u64` (its `to_string`).
pub fn u64_to_string(x: u64) -> (r: String)
    ensures
        r@ == decimal(x as nat),
{
    let mut s = String::new();
    push_decimal(&mut s, x);
    assert(s@ =~= decimal(x as nat));
    s
}

/// The decimal numeral of a count (its `to_string`).
pub fn usize_to_string(x: usize) -> (r: String)
    ensures
        r@ == decimal(x as nat),
{
    let mut s = String::new();
    push_decimal(&mut s, x as u64);
    assert(s@ =~= decimal(x as nat));
    s
}

} // verus!
