use vstd::prelude::*;
use crate::text::{concat_map, lemma_concat_map_take_step, push_char, str_chars, string_from_chars};

verus! {

// ---------------------------------------------------------------- DSL headwords

/// The characters that DSL treats as markup in headwords.
pub open spec fn is_dsl_special(c: char) -> bool {
    c == '\\' || c == '(' || c == ')' || c == '{' || c == '}' || c == '[' || c == ']' || c == '#'
        || c == '@' || c == '<' || c == '>' || c == '~' || c == '^'
}

/// How one character is written in a DSL headword.
pub open spec fn dsl_escape_char(c: char) -> Seq<char> {
    if is_dsl_special(c) {
        seq!['\\', c]
    } else {
        seq![c]
    }
}

/// A headword with every DSL markup character backslash-escaped.
pub open spec fn dsl_escaped(s: Seq<char>) -> Seq<char> {
    concat_map(s, |c: char| dsl_escape_char(c))
}

/// The literal text a DSL reader sees in a headword: a backslash makes the
/// character after it literal.
pub open spec fn dsl_literal_text(t: Seq<char>) -> Seq<char>
    decreases t.len(),
{
    if t.len() == 0 {
        seq![]
    } else if t[0] == '\\' && t.len() >= 2 {
        seq![t[1]] + dsl_literal_text(t.skip(2))
    } else {
        seq![t[0]] + dsl_literal_text(t.drop_first())
    }
}

fn is_dsl_special_char(c: char) -> (b: bool)
    ensures
        b == is_dsl_special(c),
{
    c == '\\' || c == '(' || c == ')' || c == '{' || c == '}' || c == '[' || c == ']' || c == '#'
        || c == '@' || c == '<' || c == '>' || c == '~' || c == '^'
}

/// Escape special characters in DSL headwords and cross-references.
pub fn escape_dsl(s: &str) -> (res: String)
    ensures
        res@ == dsl_escaped(s@),
{
    let cs = str_chars(s);
    let mut res = String::new();
    let n = cs.len();
    let ghost f = |c: char| dsl_escape_char(c);
    for i in 0..n
        invariant
            n == cs.len(),
            cs@ == s@,
            f == (|c: char| dsl_escape_char(c)),
            res@ == concat_map(cs@.take(i as int), f),
    {
        let c = cs[i];
        if is_dsl_special_char(c) {
            push_char(&mut res, '\\');
        }
        push_char(&mut res, c);
        proof {
            lemma_concat_map_take_step(cs@, i as int, f);
            assert(res@ =~= concat_map(cs@.take(i as int), f) + dsl_escape_char(c));
        }
    }
    assert(cs@.take(n as int) =~= cs@);
    res
}

/// A DSL reader recovers exactly the original text from an escaped headword,
/// so escaped headwords of distinct titles are distinct.
pub proof fn lemma_dsl_escape_roundtrip(s: Seq<char>)
    ensures
        dsl_literal_text(dsl_escaped(s)) == s,
    decreases s.len(),
{
    if s.len() > 0 {
        let rest = dsl_escaped(s.drop_first());
        lemma_dsl_escape_roundtrip(s.drop_first());
        let t = dsl_escaped(s);
        assert(t == dsl_escape_char(s[0]) + rest);
        if is_dsl_special(s[0]) {
            assert(t.skip(2) =~= rest);
        } else {
            assert(t.drop_first() =~= rest);
        }
        assert(seq![s[0]] + s.drop_first() =~= s);
    }
}

/// Escaping goes character by character: each of the DSL markup characters
/// `\ ( ) { } [ ] # @ < > ~ ^` is written with a backslash before it, every other
/// character as itself.
pub proof fn lemma_dsl_escape_table(c: char, s: Seq<char>)
    ensures
        dsl_escaped(seq![c] + s) == (if set![
            '\\', '(', ')', '{', '}', '[', ']', '#', '@', '<', '>', '~', '^',
        ].contains(c) {
            seq!['\\', c]
        } else {
            seq![c]
        }) + dsl_escaped(s),
{
    assert((seq![c] + s).drop_first() =~= s);
    assert((seq![c] + s)[0] == c);
}

// ---------------------------------------------------------------- quoted values

/// The characters that `str::trim` removes: those with the Unicode
/// `White_Space` property.
pub open spec fn is_white_space(c: char) -> bool {
    ('\u{9}' <= c && c <= '\u{d}') || c == ' ' || c == '\u{85}' || c == '\u{a0}' || c == '\u{1680}'
        || ('\u{2000}' <= c && c <= '\u{200a}') || c == '\u{2028}' || c == '\u{2029}' || c
        == '\u{202f}' || c == '\u{205f}' || c == '\u{3000}'
}

/// `s` without its leading white space.
pub open spec fn trim_start(s: Seq<char>) -> Seq<char>
    decreases s.len(),
{
    if s.len() > 0 && is_white_space(s[0]) {
        trim_start(s.drop_first())
    } else {
        s
    }
}

/// `s` without its trailing white space.
pub open spec fn trim_end(s: Seq<char>) -> Seq<char>
    decreases s.len(),
{
    if s.len() > 0 && is_white_space(s.last()) {
        trim_end(s.drop_last())
    } else {
        s
    }
}

/// `s` without leading and trailing white space.
pub open spec fn trimmed(s: Seq<char>) -> Seq<char> {
    trim_end(trim_start(s))
}

/// The character that a backslash escape stands for inside a quoted value.
pub open spec fn quoted_escape(c: char) -> Option<char> {
    if c == '\'' {
        Some('\'')
    } else if c == '\\' {
        Some('\\')
    } else if c == 'n' {
        Some('\n')
    } else if c == 'r' {
        Some('\r')
    } else if c == 't' {
        Some('\t')
    } else if c == '"' {
        Some('"')
    } else {
        None
    }
}

/// The body of a quoted value with its escapes resolved: a backslash before one of
/// `' \ n r t "` and a doubled quote stand for one character; anything else,
/// a lone backslash included, stands for itself.
pub open spec fn unescape_quoted(s: Seq<char>) -> Seq<char>
    decreases s.len(),
{
    if s.len() == 0 {
        seq![]
    } else if s.len() >= 2 && s[0] == '\\' && quoted_escape(s[1]) is Some {
        seq![quoted_escape(s[1])->0] + unescape_quoted(s.skip(2))
    } else if s.len() >= 2 && s[0] == '\'' && s[1] == '\'' {
        seq!['\''] + unescape_quoted(s.skip(2))
    } else {
        seq![s[0]] + unescape_quoted(s.drop_first())
    }
}

/// The value of a possibly quoted text: trimmed, and, when it is enclosed in single
/// quotes, the body between them with its escapes resolved.
pub open spec fn unquoted(s: Seq<char>) -> Seq<char> {
    let t = trimmed(s);
    if t.len() >= 2 && t[0] == '\'' && t.last() == '\'' {
        unescape_quoted(t.subrange(1, t.len() - 1))
    } else {
        t
    }
}

fn is_white_space_char(c: char) -> (b: bool)
    ensures
        b == is_white_space(c),
{
    ('\u{9}' <= c && c <= '\u{d}') || c == ' ' || c == '\u{85}' || c == '\u{a0}' || c == '\u{1680}'
        || ('\u{2000}' <= c && c <= '\u{200a}') || c == '\u{2028}' || c == '\u{2029}' || c
        == '\u{202f}' || c == '\u{205f}' || c == '\u{3000}'
}

fn quoted_escape_char(c: char) -> (r: Option<char>)
    ensures
        r == quoted_escape(c),
{
    if c == '\'' {
        Some('\'')
    } else if c == '\\' {
        Some('\\')
    } else if c == 'n' {
        Some('\n')
    } else if c == 'r' {
        Some('\r')
    } else if c == 't' {
        Some('\t')
    } else if c == '"' {
        Some('"')
    } else {
        None
    }
}

/// Bounds `lo..hi` of `s` with white space trimmed from both ends.
fn trim_bounds(cs: &Vec<char>) -> (r: (usize, usize))
    ensures
        r.0 <= r.1 <= cs.len(),
        cs@.subrange(r.0 as int, r.1 as int) == trimmed(cs@),
{
    let n = cs.len();
    let mut lo: usize = 0;
    assert(cs@.skip(0) =~= cs@);
    while lo < n && is_white_space_char(cs[lo])
        invariant
            lo <= n == cs.len(),
            trim_start(cs@) == trim_start(cs@.skip(lo as int)),
        decreases n - lo,
    {
        assert(cs@.skip(lo as int).drop_first() =~= cs@.skip(lo + 1));
        lo = lo + 1;
    }
    assert(trim_start(cs@) == cs@.skip(lo as int));
    let mut hi: usize = n;
    while hi > lo && is_white_space_char(cs[hi - 1])
        invariant
            lo <= hi <= n == cs.len(),
            trim_start(cs@) == cs@.skip(lo as int),
            trimmed(cs@) == trim_end(cs@.subrange(lo as int, hi as int)),
        decreases hi - lo,
    {
        assert(cs@.subrange(lo as int, hi as int).drop_last() =~= cs@.subrange(
            lo as int,
            hi - 1,
        ));
        hi = hi - 1;
    }
    assert(cs@.skip(lo as int) =~= cs@.subrange(lo as int, n as int));
    (lo, hi)
}

/// Removes surrounding white space and, for a value in single quotes, the quotes
/// and the escapes inside them.
pub fn unquote(s: &str) -> (res: String)
    requires
        trimmed(s@) != seq!['\''],
    ensures
        res@ == unquoted(s@),
{
    let cs = str_chars(s);
    let (lo, hi) = trim_bounds(&cs);
    let ghost t = trimmed(s@);
    if hi - lo < 2 || cs[lo] != '\'' || cs[hi - 1] != '\'' {
        proof {
            if t.len() == 1 && t[0] == '\'' {
                assert(t =~= seq!['\'']);
            }
        }
        return string_from_chars(&cs, lo, hi);
    }
    let start = lo + 1;
    let end = hi - 1;
    let ghost inner = cs@.subrange(start as int, end as int);
    assert(inner =~= t.subrange(1, t.len() - 1));
    let mut res = String::new();
    let mut i = start;
    assert(cs@.subrange(i as int, end as int) =~= inner);
    while i < end
        invariant
            start <= i <= end < cs.len(),
            inner == cs@.subrange(start as int, end as int),
            res@ + unescape_quoted(cs@.subrange(i as int, end as int)) == unescape_quoted(inner),
        decreases end - i,
    {
        let ghost rest = cs@.subrange(i as int, end as int);
        let c = cs[i];
        if c == '\\' && i + 1 < end && quoted_escape_char(cs[i + 1]).is_some() {
            let e = quoted_escape_char(cs[i + 1]).unwrap();
            push_char(&mut res, e);
            assert(rest.skip(2) =~= cs@.subrange(i + 2, end as int));
            i = i + 2;
        } else if c == '\'' && i + 1 < end && cs[i + 1] == '\'' {
            push_char(&mut res, '\'');
            assert(rest.skip(2) =~= cs@.subrange(i + 2, end as int));
            i = i + 2;
        } else {
            push_char(&mut res, c);
            assert(rest.drop_first() =~= cs@.subrange(i + 1, end as int));
            i = i + 1;
        }
    }
    assert(cs@.subrange(end as int, end as int) =~= Seq::<char>::empty());
    assert(res@ =~= unescape_quoted(inner));
    res
}

proof fn lemma_unescape_plain(s: Seq<char>)
    requires
        forall|i: int| 0 <= i < s.len() ==> s[i] != '\\' && s[i] != '\'',
    ensures
        unescape_quoted(s) == s,
    decreases s.len(),
{
    if s.len() > 0 {
        lemma_unescape_plain(s.drop_first());
        assert(seq![s[0]] + s.drop_first() =~= s);
    }
}

proof fn lemma_unescape_after_plain(plain: Seq<char>, rest: Seq<char>)
    requires
        forall|i: int| 0 <= i < plain.len() ==> plain[i] != '\\' && plain[i] != '\'',
    ensures
        unescape_quoted(plain + rest) == plain + unescape_quoted(rest),
    decreases plain.len(),
{
    if plain.len() == 0 {
        assert(plain + rest =~= rest);
        assert(plain + unescape_quoted(rest) =~= unescape_quoted(rest));
    } else {
        assert((plain + rest).drop_first() =~= plain.drop_first() + rest);
        lemma_unescape_after_plain(plain.drop_first(), rest);
        assert(plain + unescape_quoted(rest) =~= seq![plain[0]] + (plain.drop_first()
            + unescape_quoted(rest)));
    }
}

/// Inside quotes, after text with no backslash and no quote: `\'`, `\\`, `\n`,
/// `\r`, `\t` and `\"` stand for a quote, a backslash, a line feed, a carriage
/// return, a tab and a double quote; a doubled quote stands for one quote; a
/// backslash before any other character stands for itself.
pub proof fn lemma_unescape_table(plain: Seq<char>, c: char, rest: Seq<char>)
    requires
        forall|i: int| 0 <= i < plain.len() ==> plain[i] != '\\' && plain[i] != '\'',
    ensures
        unescape_quoted(plain + seq!['\\', '\''] + rest) == plain + seq!['\''] + unescape_quoted(rest),
        unescape_quoted(plain + seq!['\\', '\\'] + rest) == plain + seq!['\\'] + unescape_quoted(rest),
        unescape_quoted(plain + seq!['\\', 'n'] + rest) == plain + seq!['\n'] + unescape_quoted(rest),
        unescape_quoted(plain + seq!['\\', 'r'] + rest) == plain + seq!['\r'] + unescape_quoted(rest),
        unescape_quoted(plain + seq!['\\', 't'] + rest) == plain + seq!['\t'] + unescape_quoted(rest),
        unescape_quoted(plain + seq!['\\', '"'] + rest) == plain + seq!['"'] + unescape_quoted(rest),
        unescape_quoted(plain + seq!['\'', '\''] + rest) == plain + seq!['\''] + unescape_quoted(rest),
        !set!['\'', '\\', 'n', 'r', 't', '"'].contains(c) ==> unescape_quoted(
            plain + seq!['\\', c] + rest,
        ) == plain + seq!['\\'] + unescape_quoted(seq![c] + rest),
{
    let pairs = seq![
        seq!['\\', '\''],
        seq!['\\', '\\'],
        seq!['\\', 'n'],
        seq!['\\', 'r'],
        seq!['\\', 't'],
        seq!['\\', '"'],
        seq!['\'', '\''],
        seq!['\\', c],
    ];
    assert forall|k: int| 0 <= k < pairs.len() implies unescape_quoted(plain + pairs[k] + rest)
        == plain + unescape_quoted(pairs[k] + rest) by {
        assert(plain + pairs[k] + rest =~= plain + (pairs[k] + rest));
        lemma_unescape_after_plain(plain, pairs[k] + rest);
        assert((pairs[k] + rest).skip(2) =~= rest);
        assert((pairs[k] + rest).drop_first() =~= seq![pairs[k][1]] + rest);
    }
    assert(pairs[0] == seq!['\\', '\'']);
    assert(pairs[1] == seq!['\\', '\\']);
    assert(pairs[2] == seq!['\\', 'n']);
    assert(pairs[3] == seq!['\\', 'r']);
    assert(pairs[4] == seq!['\\', 't']);
    assert(pairs[5] == seq!['\\', '"']);
    assert(pairs[6] == seq!['\'', '\'']);
    assert(pairs[7] == seq!['\\', c]);
    assert forall|k: int| 0 <= k < 7 implies unescape_quoted(plain + pairs[k] + rest) == plain
        + seq![quoted_escape(pairs[k][1])->0] + unescape_quoted(rest) by {
        assert((pairs[k] + rest).skip(2) =~= rest);
        assert(plain + (seq![quoted_escape(pairs[k][1])->0] + unescape_quoted(rest)) =~= plain
            + seq![quoted_escape(pairs[k][1])->0] + unescape_quoted(rest));
    }
    assert((pairs[7] + rest).drop_first() =~= seq![c] + rest);
    assert(plain + (seq!['\\'] + unescape_quoted(seq![c] + rest)) =~= plain + seq!['\\']
        + unescape_quoted(seq![c] + rest));
}

/// A text in single quotes whose body holds no backslash and no quote is read
/// back as that body, whatever white space surrounds the quotes.
pub proof fn lemma_unquote_plain(body: Seq<char>, pre: Seq<char>, post: Seq<char>)
    requires
        forall|i: int| 0 <= i < body.len() ==> body[i] != '\\' && body[i] != '\'',
        forall|i: int| 0 <= i < pre.len() ==> is_white_space(#[trigger] pre[i]),
        forall|i: int| 0 <= i < post.len() ==> is_white_space(#[trigger] post[i]),
    ensures
        unquoted(pre + seq!['\''] + body + seq!['\''] + post) == body,
{
    let q = seq!['\''] + body + seq!['\''];
    lemma_trim_start_ws(pre, q + post);
    lemma_trim_end_ws(q, post);
    assert(pre + seq!['\''] + body + seq!['\''] + post =~= pre + (q + post));
    assert(trim_start(q) == q);
    assert(trim_end(q) == q);
    assert(q.subrange(1, q.len() - 1) =~= body);
    lemma_unescape_plain(body);
}

proof fn lemma_trim_start_ws(pre: Seq<char>, s: Seq<char>)
    requires
        forall|i: int| 0 <= i < pre.len() ==> is_white_space(#[trigger] pre[i]),
        s.len() > 0,
        !is_white_space(s[0]),
    ensures
        trim_start(pre + s) == s,
    decreases pre.len(),
{
    if pre.len() > 0 {
        assert((pre + s).drop_first() =~= pre.drop_first() + s);
        lemma_trim_start_ws(pre.drop_first(), s);
    } else {
        assert(pre + s =~= s);
    }
}

proof fn lemma_trim_end_ws(s: Seq<char>, post: Seq<char>)
    requires
        forall|i: int| 0 <= i < post.len() ==> is_white_space(#[trigger] post[i]),
        s.len() > 0,
        !is_white_space(s.last()),
    ensures
        trim_end(s + post) == s,
    decreases post.len(),
{
    if post.len() > 0 {
        assert((s + post).drop_last() =~= s + post.drop_last());
        lemma_trim_end_ws(s, post.drop_last());
    } else {
        assert(s + post =~= s);
    }
}

proof fn lemma_trim_start_is_suffix(s: Seq<char>)
    ensures
        exists|k: int| 0 <= k <= s.len() && trim_start(s) == s.skip(k),
    decreases s.len(),
{
    if s.len() > 0 && is_white_space(s[0]) {
        lemma_trim_start_is_suffix(s.drop_first());
        let k = choose|k: int|
            0 <= k <= s.drop_first().len() && trim_start(s.drop_first()) == s.drop_first().skip(k);
        assert(s.drop_first().skip(k) =~= s.skip(k + 1));
    } else {
        assert(s.skip(0) =~= s);
    }
}

proof fn lemma_trim_end_is_prefix(s: Seq<char>)
    ensures
        exists|k: int| 0 <= k <= s.len() && trim_end(s) == s.take(k),
    decreases s.len(),
{
    if s.len() > 0 && is_white_space(s.last()) {
        lemma_trim_end_is_prefix(s.drop_last());
        let k = choose|k: int|
            0 <= k <= s.drop_last().len() && trim_end(s.drop_last()) == s.drop_last().take(k);
        assert(s.drop_last().take(k) =~= s.take(k));
    } else {
        assert(s.take(s.len() as int) =~= s);
    }
}

proof fn lemma_trimmed_within(s: Seq<char>)
    ensures
        trimmed(s).len() <= s.len(),
        forall|i: int| 0 <= i < trimmed(s).len() ==> s.contains(#[trigger] trimmed(s)[i]),
{
    lemma_trim_start_is_suffix(s);
    let k = choose|k: int| 0 <= k <= s.len() && trim_start(s) == s.skip(k);
    let t = s.skip(k);
    lemma_trim_end_is_prefix(t);
    let j = choose|j: int| 0 <= j <= t.len() && trim_end(t) == t.take(j);
    assert forall|i: int| 0 <= i < trimmed(s).len() implies s.contains(#[trigger] trimmed(s)[i]) by {
        assert(trimmed(s)[i] == s[k + i]);
    }
}

proof fn lemma_unescape_quoted_within(t: Seq<char>)
    ensures
        unescape_quoted(t).len() <= t.len(),
        forall|i: int|
            0 <= i < unescape_quoted(t).len() ==> (#[trigger] unescape_quoted(t)[i] as u32) < 0x80
                || t.contains(unescape_quoted(t)[i]),
    decreases t.len(),
{
    if t.len() > 0 {
        let r = unescape_quoted(t);
        if t.len() >= 2 && t[0] == '\\' && quoted_escape(t[1]) is Some {
            let rest = t.skip(2);
            lemma_unescape_quoted_within(rest);
            assert forall|i: int| 0 <= i < r.len() implies (#[trigger] r[i] as u32) < 0x80
                || t.contains(r[i]) by {
                if i > 0 {
                    assert(r[i] == unescape_quoted(rest)[i - 1]);
                    if rest.contains(r[i]) {
                        let w = choose|w: int| 0 <= w < rest.len() && rest[w] == r[i];
                        assert(t[w + 2] == r[i]);
                    }
                }
            }
        } else if t.len() >= 2 && t[0] == '\'' && t[1] == '\'' {
            let rest = t.skip(2);
            lemma_unescape_quoted_within(rest);
            assert forall|i: int| 0 <= i < r.len() implies (#[trigger] r[i] as u32) < 0x80
                || t.contains(r[i]) by {
                if i > 0 {
                    assert(r[i] == unescape_quoted(rest)[i - 1]);
                    if rest.contains(r[i]) {
                        let w = choose|w: int| 0 <= w < rest.len() && rest[w] == r[i];
                        assert(t[w + 2] == r[i]);
                    }
                }
            }
        } else {
            let rest = t.drop_first();
            lemma_unescape_quoted_within(rest);
            assert forall|i: int| 0 <= i < r.len() implies (#[trigger] r[i] as u32) < 0x80
                || t.contains(r[i]) by {
                if i > 0 {
                    assert(r[i] == unescape_quoted(rest)[i - 1]);
                    if rest.contains(r[i]) {
                        let w = choose|w: int| 0 <= w < rest.len() && rest[w] == r[i];
                        assert(t[w + 1] == r[i]);
                    }
                } else {
                    assert(t[0] == r[0]);
                }
            }
        }
    }
}

/// Unquoting never makes a text longer than its trimmed input, and every
/// character it yields that is not ASCII comes from the input; in particular it
/// never introduces U+FFFD.
pub proof fn lemma_unquote_within(s: Seq<char>)
    ensures
        unquoted(s).len() <= trimmed(s).len(),
        forall|i: int|
            0 <= i < unquoted(s).len() ==> (#[trigger] unquoted(s)[i] as u32) < 0x80 || s.contains(
                unquoted(s)[i],
            ),
{
    let t = trimmed(s);
    lemma_trimmed_within(s);
    if t.len() >= 2 && t[0] == '\'' && t.last() == '\'' {
        let inner = t.subrange(1, t.len() - 1);
        lemma_unescape_quoted_within(inner);
        assert forall|i: int| 0 <= i < unquoted(s).len() implies (#[trigger] unquoted(s)[i] as u32)
            < 0x80 || s.contains(unquoted(s)[i]) by {
            let c = unquoted(s)[i];
            if inner.contains(c) {
                let w = choose|w: int| 0 <= w < inner.len() && inner[w] == c;
                assert(t[w + 1] == c);
            }
        }
    } else {
        assert forall|i: int| 0 <= i < unquoted(s).len() implies (#[trigger] unquoted(s)[i] as u32)
            < 0x80 || s.contains(unquoted(s)[i]) by {
            assert(s.contains(t[i]));
        }
    }
}

/// The characters with the Unicode `White_Space` property, one by one.
pub open spec fn unicode_white_space() -> Set<char> {
    set![
        '\u{9}', '\u{a}', '\u{b}', '\u{c}', '\u{d}', '\u{20}', '\u{85}', '\u{a0}', '\u{1680}',
        '\u{2000}', '\u{2001}', '\u{2002}', '\u{2003}', '\u{2004}', '\u{2005}', '\u{2006}',
        '\u{2007}', '\u{2008}', '\u{2009}', '\u{200a}', '\u{2028}', '\u{2029}', '\u{202f}',
        '\u{205f}', '\u{3000}',
    ]
}

/// What trimming removes is exactly the Unicode white space.
pub proof fn lemma_white_space_is_unicode(c: char)
    ensures
        is_white_space(c) <==> unicode_white_space().contains(c),
{
    if '\u{2000}' <= c && c <= '\u{200a}' {
        assert(c == '\u{2000}' || c == '\u{2001}' || c == '\u{2002}' || c == '\u{2003}' || c
            == '\u{2004}' || c == '\u{2005}' || c == '\u{2006}' || c == '\u{2007}' || c == '\u{2008}'
            || c == '\u{2009}' || c == '\u{200a}');
    }
    if '\u{9}' <= c && c <= '\u{d}' {
        assert(c == '\u{9}' || c == '\u{a}' || c == '\u{b}' || c == '\u{c}' || c == '\u{d}');
    }
}

proof fn lemma_trim_start_push(s: Seq<char>, c: char)
    requires
        is_white_space(c),
    ensures
        trim_start(s.push(c)) == (if trim_start(s).len() == 0 {
            seq![]
        } else {
            trim_start(s).push(c)
        }),
    decreases s.len(),
{
    if s.len() == 0 {
        assert(s.push(c).drop_first() =~= seq![]);
        assert(trim_start(seq![]) == Seq::<char>::empty());
    } else if is_white_space(s[0]) {
        assert(s.push(c).drop_first() =~= s.drop_first().push(c));
        lemma_trim_start_push(s.drop_first(), c);
    }
}

proof fn lemma_trim_end_push(s: Seq<char>, c: char)
    requires
        is_white_space(c),
    ensures
        trim_end(s.push(c)) == trim_end(s),
{
    assert(s.push(c).drop_last() =~= s);
}

proof fn lemma_trimmed_ignores_white_space(s: Seq<char>, c: char)
    requires
        is_white_space(c),
    ensures
        trimmed(s.push(c)) == trimmed(s),
        trimmed(seq![c] + s) == trimmed(s),
{
    lemma_trim_start_push(s, c);
    if trim_start(s).len() == 0 {
        assert(trim_start(s) =~= seq![]);
    } else {
        lemma_trim_end_push(trim_start(s), c);
    }
    assert((seq![c] + s).drop_first() =~= s);
}

/// Unicode white space around a value does not change what it is read as: adding a
/// white-space character at either end leaves the value unchanged.
pub proof fn lemma_unquote_ignores_white_space(s: Seq<char>, c: char)
    requires
        unicode_white_space().contains(c),
    ensures
        unquoted(s.push(c)) == unquoted(s),
        unquoted(seq![c] + s) == unquoted(s),
{
    lemma_white_space_is_unicode(c);
    lemma_trimmed_ignores_white_space(s, c);
}

/// A text that neither begins nor ends with Unicode white space is left whole by
/// trimming.
pub proof fn lemma_trimmed_keeps_other_ends(s: Seq<char>)
    requires
        s.len() > 0,
        !unicode_white_space().contains(s[0]),
        !unicode_white_space().contains(s.last()),
    ensures
        trimmed(s) == s,
{
    lemma_white_space_is_unicode(s[0]);
    lemma_white_space_is_unicode(s.last());
}

// ---------------------------------------------------------------- namespaces

/// MediaWiki namespace canonical names (English).
pub open spec fn non_article_prefixes() -> Seq<Seq<char>> {
    seq![
        "Category"@,
        "Template"@,
        "Wikipedia"@,
        "Portal"@,
        "Help"@,
        "Module"@,
        "WikiProject"@,
        "User"@,
        "File"@,
        "Image"@,
        "MediaWiki"@,
        "TimedText"@,
        "Draft"@,
        "Media"@,
        "Special"@,
        "Talk"@,
        "WP"@,
    ]
}

/// The title begins with one of the namespace names followed by a colon.
pub open spec fn is_non_article_title(title: Seq<char>) -> bool {
    exists|i: int|
        0 <= i < non_article_prefixes().len() && (non_article_prefixes()[i] + seq![
            ':',
        ]).is_prefix_of(title)
}

/// `p` followed by a colon begins `t`.
fn starts_with_namespace(t: &Vec<char>, p: &Vec<char>) -> (b: bool)
    ensures
        b == (p@ + seq![':']).is_prefix_of(t@),
{
    let n = p.len();
    if n >= t.len() || t[n] != ':' {
        proof {
            if (p@ + seq![':']).is_prefix_of(t@) {
                assert((p@ + seq![':'])[n as int] == ':');
            }
        }
        return false;
    }
    let mut i: usize = 0;
    while i < n
        invariant
            i <= n == p.len() < t.len(),
            t@[n as int] == ':',
            forall|j: int| 0 <= j < i ==> t@[j] == p@[j],
        decreases n - i,
    {
        if t[i] != p[i] {
            proof {
                if (p@ + seq![':']).is_prefix_of(t@) {
                    assert((p@ + seq![':'])[i as int] == p@[i as int]);
                }
            }
            return false;
        }
        i = i + 1;
    }
    assert(t@.subrange(0, n + 1) =~= p@ + seq![':']);
    true
}

/// Returns true if the title is a non-article namespace page.
pub fn is_non_article(title: &str) -> (b: bool)
    ensures
        b == is_non_article_title(title@),
{
    let prefixes: Vec<&str> = vec![
        "Category",
        "Template",
        "Wikipedia",
        "Portal",
        "Help",
        "Module",
        "WikiProject",
        "User",
        "File",
        "Image",
        "MediaWiki",
        "TimedText",
        "Draft",
        "Media",
        "Special",
        "Talk",
        "WP",
    ];
    assert(prefixes@.map_values(|p: &str| p@) =~= non_article_prefixes());
    let t = str_chars(title);
    let n = prefixes.len();
    for k in 0..n
        invariant
            n == prefixes.len() == non_article_prefixes().len(),
            t@ == title@,
            forall|j: int| 0 <= j < n ==> #[trigger] prefixes@[j]@ == non_article_prefixes()[j],
            forall|j: int|
                0 <= j < k ==> !(#[trigger] non_article_prefixes()[j] + seq![':']).is_prefix_of(
                    title@,
                ),
    {
        let p = str_chars(prefixes[k]);
        if starts_with_namespace(&t, &p) {
            return true;
        }
    }
    false
}

proof fn lemma_namespace_title(i: int, name: Seq<char>, named: Seq<char>, rest: Seq<char>)
    requires
        0 <= i < non_article_prefixes().len(),
        non_article_prefixes()[i] == name,
        named == name + seq![':'],
    ensures
        is_non_article_title(named + rest),
{
    assert((name + seq![':']) =~= (named + rest).subrange(0, named.len() as int));
    assert((non_article_prefixes()[i] + seq![':']).is_prefix_of(named + rest));
}

/// The non-article namespaces: a title made of one of the names Category,
/// Template, Wikipedia, Portal, Help, Module, WikiProject, User, File, Image,
/// MediaWiki, TimedText, Draft, Media, Special, Talk or WP, a colon and any rest is
/// a non-article title.
pub proof fn lemma_namespace_titles(rest: Seq<char>)
    ensures
        is_non_article_title("Category:"@ + rest),
        is_non_article_title("Template:"@ + rest),
        is_non_article_title("Wikipedia:"@ + rest),
        is_non_article_title("Portal:"@ + rest),
        is_non_article_title("Help:"@ + rest),
        is_non_article_title("Module:"@ + rest),
        is_non_article_title("WikiProject:"@ + rest),
        is_non_article_title("User:"@ + rest),
        is_non_article_title("File:"@ + rest),
        is_non_article_title("Image:"@ + rest),
        is_non_article_title("MediaWiki:"@ + rest),
        is_non_article_title("TimedText:"@ + rest),
        is_non_article_title("Draft:"@ + rest),
        is_non_article_title("Media:"@ + rest),
        is_non_article_title("Special:"@ + rest),
        is_non_article_title("Talk:"@ + rest),
        is_non_article_title("WP:"@ + rest),
{
    reveal_strlit("Category");
    reveal_strlit("Category:");
    assert("Category:"@ =~= "Category"@ + seq![':']);
    lemma_namespace_title(0, "Category"@, "Category:"@, rest);
    reveal_strlit("Template");
    reveal_strlit("Template:");
    assert("Template:"@ =~= "Template"@ + seq![':']);
    lemma_namespace_title(1, "Template"@, "Template:"@, rest);
    reveal_strlit("Wikipedia");
    reveal_strlit("Wikipedia:");
    assert("Wikipedia:"@ =~= "Wikipedia"@ + seq![':']);
    lemma_namespace_title(2, "Wikipedia"@, "Wikipedia:"@, rest);
    reveal_strlit("Portal");
    reveal_strlit("Portal:");
    assert("Portal:"@ =~= "Portal"@ + seq![':']);
    lemma_namespace_title(3, "Portal"@, "Portal:"@, rest);
    reveal_strlit("Help");
    reveal_strlit("Help:");
    assert("Help:"@ =~= "Help"@ + seq![':']);
    lemma_namespace_title(4, "Help"@, "Help:"@, rest);
    reveal_strlit("Module");
    reveal_strlit("Module:");
    assert("Module:"@ =~= "Module"@ + seq![':']);
    lemma_namespace_title(5, "Module"@, "Module:"@, rest);
    reveal_strlit("WikiProject");
    reveal_strlit("WikiProject:");
    assert("WikiProject:"@ =~= "WikiProject"@ + seq![':']);
    lemma_namespace_title(6, "WikiProject"@, "WikiProject:"@, rest);
    reveal_strlit("User");
    reveal_strlit("User:");
    assert("User:"@ =~= "User"@ + seq![':']);
    lemma_namespace_title(7, "User"@, "User:"@, rest);
    reveal_strlit("File");
    reveal_strlit("File:");
    assert("File:"@ =~= "File"@ + seq![':']);
    lemma_namespace_title(8, "File"@, "File:"@, rest);
    reveal_strlit("Image");
    reveal_strlit("Image:");
    assert("Image:"@ =~= "Image"@ + seq![':']);
    lemma_namespace_title(9, "Image"@, "Image:"@, rest);
    reveal_strlit("MediaWiki");
    reveal_strlit("MediaWiki:");
    assert("MediaWiki:"@ =~= "MediaWiki"@ + seq![':']);
    lemma_namespace_title(10, "MediaWiki"@, "MediaWiki:"@, rest);
    reveal_strlit("TimedText");
    reveal_strlit("TimedText:");
    assert("TimedText:"@ =~= "TimedText"@ + seq![':']);
    lemma_namespace_title(11, "TimedText"@, "TimedText:"@, rest);
    reveal_strlit("Draft");
    reveal_strlit("Draft:");
    assert("Draft:"@ =~= "Draft"@ + seq![':']);
    lemma_namespace_title(12, "Draft"@, "Draft:"@, rest);
    reveal_strlit("Media");
    reveal_strlit("Media:");
    assert("Media:"@ =~= "Media"@ + seq![':']);
    lemma_namespace_title(13, "Media"@, "Media:"@, rest);
    reveal_strlit("Special");
    reveal_strlit("Special:");
    assert("Special:"@ =~= "Special"@ + seq![':']);
    lemma_namespace_title(14, "Special"@, "Special:"@, rest);
    reveal_strlit("Talk");
    reveal_strlit("Talk:");
    assert("Talk:"@ =~= "Talk"@ + seq![':']);
    lemma_namespace_title(15, "Talk"@, "Talk:"@, rest);
    reveal_strlit("WP");
    reveal_strlit("WP:");
    assert("WP:"@ =~= "WP"@ + seq![':']);
    lemma_namespace_title(16, "WP"@, "WP:"@, rest);
}

/// A non-article title begins with one of those names and a colon.
pub proof fn lemma_non_article_title_namespaces(title: Seq<char>)
    requires
        is_non_article_title(title),
    ensures
            "Category:"@.is_prefix_of(title) ||
            "Template:"@.is_prefix_of(title) ||
            "Wikipedia:"@.is_prefix_of(title) ||
            "Portal:"@.is_prefix_of(title) ||
            "Help:"@.is_prefix_of(title) ||
            "Module:"@.is_prefix_of(title) ||
            "WikiProject:"@.is_prefix_of(title) ||
            "User:"@.is_prefix_of(title) ||
            "File:"@.is_prefix_of(title) ||
            "Image:"@.is_prefix_of(title) ||
            "MediaWiki:"@.is_prefix_of(title) ||
            "TimedText:"@.is_prefix_of(title) ||
            "Draft:"@.is_prefix_of(title) ||
            "Media:"@.is_prefix_of(title) ||
            "Special:"@.is_prefix_of(title) ||
            "Talk:"@.is_prefix_of(title) ||
            "WP:"@.is_prefix_of(title),
{
    reveal_strlit("Category");
    reveal_strlit("Category:");
    reveal_strlit("Template");
    reveal_strlit("Template:");
    reveal_strlit("Wikipedia");
    reveal_strlit("Wikipedia:");
    reveal_strlit("Portal");
    reveal_strlit("Portal:");
    reveal_strlit("Help");
    reveal_strlit("Help:");
    reveal_strlit("Module");
    reveal_strlit("Module:");
    reveal_strlit("WikiProject");
    reveal_strlit("WikiProject:");
    reveal_strlit("User");
    reveal_strlit("User:");
    reveal_strlit("File");
    reveal_strlit("File:");
    reveal_strlit("Image");
    reveal_strlit("Image:");
    reveal_strlit("MediaWiki");
    reveal_strlit("MediaWiki:");
    reveal_strlit("TimedText");
    reveal_strlit("TimedText:");
    reveal_strlit("Draft");
    reveal_strlit("Draft:");
    reveal_strlit("Media");
    reveal_strlit("Media:");
    reveal_strlit("Special");
    reveal_strlit("Special:");
    reveal_strlit("Talk");
    reveal_strlit("Talk:");
    reveal_strlit("WP");
    reveal_strlit("WP:");
    assert("Category:"@ =~= "Category"@ + seq![':']);
    assert("Template:"@ =~= "Template"@ + seq![':']);
    assert("Wikipedia:"@ =~= "Wikipedia"@ + seq![':']);
    assert("Portal:"@ =~= "Portal"@ + seq![':']);
    assert("Help:"@ =~= "Help"@ + seq![':']);
    assert("Module:"@ =~= "Module"@ + seq![':']);
    assert("WikiProject:"@ =~= "WikiProject"@ + seq![':']);
    assert("User:"@ =~= "User"@ + seq![':']);
    assert("File:"@ =~= "File"@ + seq![':']);
    assert("Image:"@ =~= "Image"@ + seq![':']);
    assert("MediaWiki:"@ =~= "MediaWiki"@ + seq![':']);
    assert("TimedText:"@ =~= "TimedText"@ + seq![':']);
    assert("Draft:"@ =~= "Draft"@ + seq![':']);
    assert("Media:"@ =~= "Media"@ + seq![':']);
    assert("Special:"@ =~= "Special"@ + seq![':']);
    assert("Talk:"@ =~= "Talk"@ + seq![':']);
    assert("WP:"@ =~= "WP"@ + seq![':']);
    let i = choose|i: int|
        0 <= i < non_article_prefixes().len() && (non_article_prefixes()[i] + seq![
            ':',
        ]).is_prefix_of(title);
    assert(non_article_prefixes()[i] + seq![':'] =~= title.subrange(0, non_article_prefixes()[i].len() + 1int));
}

} // verus!
