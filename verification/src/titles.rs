use vstd::prelude::*;
use vstd::utf8::{
    decode_utf8, encode_scalar, encode_utf8, last_continuation_byte, leading_byte_width_1,
    leading_byte_width_2, leading_byte_width_3, leading_byte_width_4,
    second_last_continuation_byte, third_last_continuation_byte, valid_utf8,
};
use crate::escape::{dsl_escaped, escape_dsl, is_non_article, is_non_article_title, lemma_dsl_escape_roundtrip};
use crate::text::{concat_map, lemma_concat_map_take_step, push_char, push_str};
use rayon::iter::{IntoParallelRefIterator, ParallelIterator};
use rayon::slice::ParallelSliceMut;
use std::io::Read;
use crate::error::WikiDictError;
use crate::xml::{xml_unescape, xml_unescaped};

verus! {

// ---------------------------------------------------------------- URLs

/// Where the dumps of a Wikimedia project are listed.
pub open spec fn listing_url(lang: Seq<char>, project: Seq<char>) -> Seq<char> {
    "https://dumps.wikimedia.org/"@ + lang + project + "/latest/"@
}

/// The listing page of a project's latest dumps.
pub fn titles_listing_url(lang: &str, project: &str) -> (res: String)
    ensures
        res@ == listing_url(lang@, project@),
{
    let mut s = String::new();
    push_str(&mut s, "https://dumps.wikimedia.org/");
    push_str(&mut s, lang);
    push_str(&mut s, project);
    push_str(&mut s, "/latest/");
    s
}

/// File name of the all-titles dump of a project.
pub open spec fn dump_file_name(lang: Seq<char>, project: Seq<char>) -> Seq<char> {
    lang + project + "-latest-all-titles-in-ns0.gz"@
}

/// The name under which the all-titles dump of a project is cached.
pub fn titles_dump_filename(lang: &str, project: &str) -> (res: String)
    ensures
        res@ == dump_file_name(lang@, project@),
{
    let mut s = String::new();
    push_str(&mut s, lang);
    push_str(&mut s, project);
    push_str(&mut s, "-latest-all-titles-in-ns0.gz");
    s
}

/// Where the all-titles dump of a project is downloaded from.
pub fn titles_dump_url(lang: &str, project: &str) -> (res: String)
    ensures
        res@ == listing_url(lang@, project@) + dump_file_name(lang@, project@),
{
    let mut s = titles_listing_url(lang, project);
    let f = titles_dump_filename(lang, project);
    push_str(&mut s, f.as_str());
    s
}

/// Bytes that MediaWiki leaves literal in a page URL: the unreserved characters of
/// RFC 3986 and the sub-delimiters `$ & ' ( ) * , ; = : / @ !`.
pub open spec fn is_url_literal(b: u8) -> bool {
    (0x61 <= b <= 0x7a) || (0x41 <= b <= 0x5a) || (0x30 <= b <= 0x39) || b == 0x2d || b == 0x2e
        || b == 0x5f || b == 0x7e || b == 0x24 || b == 0x26 || b == 0x27 || b == 0x28 || b == 0x29
        || b == 0x2a || b == 0x2c || b == 0x3b || b == 0x3d || b == 0x3a || b == 0x2f || b == 0x40
        || b == 0x21
}

/// Upper-case hexadecimal digit of a value below 16.
pub open spec fn hex_digit(v: u8) -> char {
    if v < 10 {
        (0x30 + v) as char
    } else {
        (0x41 + v - 10) as char
    }
}

/// How one byte of a title is written in its URL: literal, a space as `_`, anything
/// else as `%XX`.
pub open spec fn url_encode_byte(b: u8) -> Seq<char> {
    if is_url_literal(b) {
        seq![b as char]
    } else if b == 0x20 {
        seq!['_']
    } else {
        seq!['%', hex_digit(b >> 4u8), hex_digit(b & 0xfu8)]
    }
}

/// A page title as a URL path segment.
pub open spec fn url_encoded(title: Seq<char>) -> Seq<char> {
    concat_map(encode_utf8(title), |b: u8| url_encode_byte(b))
}

fn is_url_literal_byte(b: u8) -> (r: bool)
    ensures
        r == is_url_literal(b),
{
    (0x61 <= b && b <= 0x7a) || (0x41 <= b && b <= 0x5a) || (0x30 <= b && b <= 0x39) || b == 0x2d
        || b == 0x2e || b == 0x5f || b == 0x7e || b == 0x24 || b == 0x26 || b == 0x27 || b == 0x28
        || b == 0x29 || b == 0x2a || b == 0x2c || b == 0x3b || b == 0x3d || b == 0x3a || b == 0x2f
        || b == 0x40 || b == 0x21
}

fn hex_digit_char(v: u8) -> (c: char)
    requires
        v < 16,
    ensures
        c == hex_digit(v),
{
    if v < 10 {
        (0x30 + v) as char
    } else {
        (0x41 + v - 10) as char
    }
}

/// Encode a page title for use in a URL path segment.
/// Spaces → underscores. Special chars → percent-encoded per MediaWiki URL conventions.
/// Keeps unreserved RFC 3986 chars plus sub-delims that MediaWiki does not encode:
/// $ & ' ( ) * , ; = : / @ !
pub fn url_encode_title(title: &str) -> (res: String)
    ensures
        res@ == url_encoded(title@),
{
    let bytes = title.as_bytes();
    let n = bytes.len();
    let mut res = String::new();
    let ghost f = |b: u8| url_encode_byte(b);
    for i in 0..n
        invariant
            n == bytes@.len(),
            bytes@ == encode_utf8(title@),
            f == (|b: u8| url_encode_byte(b)),
            res@ == concat_map(bytes@.take(i as int), f),
    {
        let b = bytes[i];
        if is_url_literal_byte(b) {
            push_char(&mut res, b as char);
        } else if b == 0x20 {
            push_char(&mut res, '_');
        } else {
            assert(b >> 4u8 < 16 && b & 0xfu8 < 16) by (bit_vector);
            push_char(&mut res, '%');
            push_char(&mut res, hex_digit_char(b >> 4u8));
            push_char(&mut res, hex_digit_char(b & 0xfu8));
        }
        proof {
            lemma_concat_map_take_step(bytes@, i as int, f);
            assert(res@ =~= concat_map(bytes@.take(i as int), f) + url_encode_byte(b));
        }
    }
    assert(bytes@.take(n as int) =~= bytes@);
    res
}

/// How a title's URL begins, by its first character when that is ASCII: a letter, a
/// digit or one of `- . _ ~ $ & ' ( ) * , ; = : / @ !` stays as it is, a space
/// becomes `_`, and any other character becomes `%` and two upper-case hexadecimal
/// digits of its code.
pub proof fn lemma_url_encoding_table(c: char, t: Seq<char>)
    requires
        (c as u32) < 0x80,
    ensures
        ({
            let kept = ('a' <= c && c <= 'z') || ('A' <= c && c <= 'Z') || ('0' <= c && c <= '9')
                || set![
                '-', '.', '_', '~', '$', '&', '\'', '(', ')', '*', ',', ';', '=', ':', '/', '@', '!',
            ].contains(c);
            let digits = "0123456789ABCDEF"@;
            &&& kept ==> url_encoded(seq![c] + t) == seq![c] + url_encoded(t)
            &&& c == ' ' ==> url_encoded(seq![c] + t) == seq!['_'] + url_encoded(t)
            &&& !kept && c != ' ' ==> url_encoded(seq![c] + t) == seq![
                '%',
                digits[(c as u32) as int / 16],
                digits[(c as u32) as int % 16],
            ] + url_encoded(t)
        }),
{
    reveal_strlit("0123456789ABCDEF");
    let v = c as u32;
    let b = v as u8;
    assert(v < 0x80 ==> leading_byte_width_1(v) == v as u8 && (v as u8) as u32 == v) by (bit_vector);
    assert(encode_utf8(seq![c]) =~= seq![b]) by {
        assert(seq![c][0] == c);
        assert(seq![c].drop_first() =~= Seq::<char>::empty());
        assert(encode_utf8(Seq::<char>::empty()) =~= Seq::<u8>::empty());
        assert(encode_scalar(v) =~= seq![b]);
    }
    lemma_encode_utf8_append(seq![c], t);
    assert((seq![b] + encode_utf8(t)).drop_first() =~= encode_utf8(t));
    assert(url_encoded(seq![c] + t) == url_encode_byte(b) + url_encoded(t));
    assert(b as u32 == v);
    assert((b as char) == c);
    assert(b >> 4u8 == b / 16 && b & 0xfu8 == b % 16 && b / 16 < 8) by (bit_vector)
        requires
            b < 0x80u8,
    ;
    let hi = b / 16;
    let lo = b % 16;
    assert(hex_digit(hi) == "0123456789ABCDEF"@[hi as int]) by {
        assert(hi == 0 || hi == 1 || hi == 2 || hi == 3 || hi == 4 || hi == 5 || hi == 6 || hi == 7);
    }
    assert(hex_digit(lo) == "0123456789ABCDEF"@[lo as int]) by {
        assert(lo == 0 || lo == 1 || lo == 2 || lo == 3 || lo == 4 || lo == 5 || lo == 6 || lo == 7
            || lo == 8 || lo == 9 || lo == 10 || lo == 11 || lo == 12 || lo == 13 || lo == 14
            || lo == 15);
    }
}

/// The value of an upper-case hexadecimal digit.
pub open spec fn hex_value(c: char) -> int {
    if '0' <= c && c <= '9' {
        c as int - 0x30
    } else {
        c as int - 0x41 + 10
    }
}

/// The bytes a URL path segment stands for: `%XX` is the byte with hexadecimal
/// value `XX`, any other character is its own code.
pub open spec fn percent_decoded(s: Seq<char>) -> Seq<u8>
    decreases s.len(),
{
    if s.len() == 0 {
        seq![]
    } else if s[0] == '%' && s.len() >= 3 {
        seq![(hex_value(s[1]) * 16 + hex_value(s[2])) as u8] + percent_decoded(s.skip(3))
    } else {
        seq![s[0] as u8] + percent_decoded(s.drop_first())
    }
}

/// `bytes` with every space replaced by an underscore.
pub open spec fn spaces_to_underscores(bytes: Seq<u8>) -> Seq<u8> {
    bytes.map_values(|b: u8| if b == 0x20 { 0x5fu8 } else { b })
}

proof fn lemma_percent_decoded_bytes(bs: Seq<u8>)
    ensures
        percent_decoded(concat_map(bs, |b: u8| url_encode_byte(b))) == spaces_to_underscores(bs),
    decreases bs.len(),
{
    let f = |b: u8| url_encode_byte(b);
    if bs.len() == 0 {
        assert(spaces_to_underscores(bs) =~= Seq::<u8>::empty());
    } else {
        let b = bs[0];
        let rest = concat_map(bs.drop_first(), f);
        let t = concat_map(bs, f);
        lemma_percent_decoded_bytes(bs.drop_first());
        assert(t == url_encode_byte(b) + rest);
        if is_url_literal(b) {
            assert(t.drop_first() =~= rest);
            assert((b as char) as u8 == b);
        } else if b == 0x20 {
            assert(t.drop_first() =~= rest);
        } else {
            let hi = b >> 4u8;
            let lo = b & 0xfu8;
            assert((b >> 4u8) < 16 && (b & 0xfu8) < 16 && (b >> 4u8) * 16 + (b & 0xfu8) == b)
                by (bit_vector);
            assert(hex_value(hex_digit(hi)) == hi);
            assert(hex_value(hex_digit(lo)) == lo);
            assert(t.skip(3) =~= rest);
        }
        assert(spaces_to_underscores(bs) =~= seq![if b == 0x20 { 0x5fu8 } else { b }]
            + spaces_to_underscores(bs.drop_first()));
    }
}

/// Decoding the URL of a title gives back the title's UTF-8 bytes, with each
/// space as an underscore.
pub proof fn lemma_url_encoding_roundtrip(title: Seq<char>)
    ensures
        percent_decoded(url_encoded(title)) == spaces_to_underscores(encode_utf8(title)),
{
    lemma_percent_decoded_bytes(encode_utf8(title));
}

/// An upper-case hexadecimal digit.
pub open spec fn is_upper_hex(c: char) -> bool {
    ('0' <= c && c <= '9') || ('A' <= c && c <= 'F')
}

/// Every `%` in `t` starts a `%XX` escape with two upper-case hexadecimal digits.
pub open spec fn percent_escapes_well_formed(t: Seq<char>) -> bool {
    forall|i: int|
        0 <= i < t.len() && #[trigger] t[i] == '%' ==> i + 2 < t.len() && is_upper_hex(t[i + 1])
            && is_upper_hex(t[i + 2])
}

proof fn lemma_url_bytes_escapes(bs: Seq<u8>)
    ensures
        percent_escapes_well_formed(concat_map(bs, |b: u8| url_encode_byte(b))),
    decreases bs.len(),
{
    let f = |b: u8| url_encode_byte(b);
    if bs.len() > 0 {
        lemma_url_bytes_escapes(bs.drop_first());
        let b = bs[0];
        let h = url_encode_byte(b);
        let r = concat_map(bs.drop_first(), f);
        let t = concat_map(bs, f);
        assert(t == h + r);
        assert(b >> 4u8 < 16 && b & 0xfu8 < 16) by (bit_vector);
        assert forall|i: int| 0 <= i < t.len() && #[trigger] t[i] == '%' implies i + 2 < t.len()
            && is_upper_hex(t[i + 1]) && is_upper_hex(t[i + 2]) by {
            if i < h.len() {
                assert(t[i] == h[i]);
                assert(i == 0 && h.len() == 3);
                assert(t[1] == h[1] && t[2] == h[2]);
            } else {
                assert(t[i] == r[i - h.len()]);
                assert(t[i + 1] == r[i + 1 - h.len()]);
                assert(t[i + 2] == r[i + 2 - h.len()]);
            }
        }
    }
}

/// A title's URL is ASCII, holds no space, quote or angle bracket (so it can stand
/// inside a quoted `href`), writes every `%` as a `%XX` escape with upper-case
/// digits, and has at most three characters per byte of the title.
pub proof fn lemma_url_encoded_safe(title: Seq<char>)
    ensures
        forall|i: int|
            0 <= i < url_encoded(title).len() ==> {
                let c = #[trigger] url_encoded(title)[i];
                &&& (c as u32) < 0x80
                &&& c != ' ' && c != '"' && c != '<' && c != '>'
            },
        percent_escapes_well_formed(url_encoded(title)),
        url_encoded(title).len() <= 3 * encode_utf8(title).len(),
{
    let f = |b: u8| url_encode_byte(b);
    let p = |c: char| (c as u32) < 0x80 && c != ' ' && c != '"' && c != '<' && c != '>';
    assert forall|b: u8, j: int| 0 <= j < f(b).len() implies #[trigger] p(f(b)[j]) by {
        assert(b >> 4u8 < 16 && b & 0xfu8 < 16) by (bit_vector);
    }
    crate::text::lemma_concat_map_all(encode_utf8(title), f, p);
    assert forall|b: u8| #[trigger] f(b).len() <= 3 by {}
    crate::text::lemma_concat_map_len(encode_utf8(title), f, 3);
    lemma_url_bytes_escapes(encode_utf8(title));
    assert forall|i: int| 0 <= i < url_encoded(title).len() implies {
        let c = #[trigger] url_encoded(title)[i];
        &&& (c as u32) < 0x80
        &&& c != ' ' && c != '"' && c != '<' && c != '>'
    } by {
        assert(p(url_encoded(title)[i]));
    }
}

/// Base of the page URLs of a project.
pub open spec fn wiki_base_url(lang: Seq<char>, project: Seq<char>) -> Seq<char> {
    "https://"@ + lang + "."@ + project + ".org/wiki/"@
}

/// The base of the page URLs of a project.
pub fn wiki_base(lang: &str, project: &str) -> (res: String)
    ensures
        res@ == wiki_base_url(lang@, project@),
{
    let mut s = String::new();
    push_str(&mut s, "https://");
    push_str(&mut s, lang);
    push_str(&mut s, ".");
    push_str(&mut s, project);
    push_str(&mut s, ".org/wiki/");
    s
}

/// The dictionary entry of a page title: the title as a DSL headword, and a link
/// to the page whose text is its URL.
pub open spec fn title_entry_of(base_url: Seq<char>, title: Seq<char>) -> (Seq<char>, Seq<char>) {
    let url = base_url + url_encoded(title);
    (dsl_escaped(title), "<a href=\""@ + url + "\">"@ + url + "</a>"@)
}

/// The (escaped headword, `<a href="url">url</a>`) entry of one title.
pub fn title_entry(base_url: &str, title: &str) -> (res: (String, String))
    ensures
        (res.0@, res.1@) == title_entry_of(base_url@, title@),
{
    let escaped = escape_dsl(title);
    let mut url = String::new();
    push_str(&mut url, base_url);
    let url_title = url_encode_title(title);
    push_str(&mut url, url_title.as_str());
    let mut body = String::new();
    push_str(&mut body, "<a href=\"");
    push_str(&mut body, url.as_str());
    push_str(&mut body, "\">");
    push_str(&mut body, url.as_str());
    push_str(&mut body, "</a>");
    (escaped, body)
}

/// The entries of the given titles of a project, in the given order.
pub fn parse_all_titles_inner(lang: &str, project: &str, titles: &[&str]) -> (res: Vec<(String, String)>)
    ensures
        res@.len() == titles@.len(),
        forall|i: int|
            0 <= i < titles@.len() ==> (#[trigger] res@[i].0@, res@[i].1@) == title_entry_of(
                wiki_base_url(lang@, project@),
                titles@[i]@,
            ),
{
    let base = wiki_base(lang, project);
    let mut res: Vec<(String, String)> = Vec::new();
    let n = titles.len();
    for i in 0..n
        invariant
            n == titles@.len(),
            base@ == wiki_base_url(lang@, project@),
            res@.len() == i,
            forall|j: int|
                0 <= j < i ==> (#[trigger] res@[j].0@, res@[j].1@) == title_entry_of(
                    wiki_base_url(lang@, project@),
                    titles@[j]@,
                ),
    {
        let e = title_entry(base.as_str(), titles[i]);
        res.push(e);
    }
    res
}

// ---------------------------------------------------------------- page titles

/// `needle` occurs in `h` at position `k`.
pub open spec fn occurs_at(h: Seq<u8>, k: int, needle: Seq<u8>) -> bool {
    0 <= k && k + needle.len() <= h.len() && h.subrange(k, k + needle.len()) == needle
}

/// The position just after the first occurrence of `needle` in `h` that starts at
/// or after `k`, if there is one.
pub open spec fn find_from(h: Seq<u8>, k: int, needle: Seq<u8>) -> Option<int>
    decreases h.len() + 1 - k,
{
    if k < 0 || k + needle.len() > h.len() {
        None
    } else if occurs_at(h, k, needle) {
        Some(k + needle.len())
    } else {
        find_from(h, k + 1, needle)
    }
}

proof fn lemma_find_from_bounds(h: Seq<u8>, k: int, needle: Seq<u8>)
    ensures
        find_from(h, k, needle) matches Some(p) ==> k + needle.len() <= p <= h.len(),
    decreases h.len() + 1 - k,
{
    if !(k < 0 || k + needle.len() > h.len()) && !occurs_at(h, k, needle) {
        lemma_find_from_bounds(h, k + 1, needle);
    }
}

/// Find `needle` in `haystack` starting from `start`, return position just after the match.
pub fn find_after(haystack: &[u8], start: usize, needle: &[u8]) -> (r: Option<usize>)
    requires
        start <= haystack@.len(),
        needle@.len() > 0,
    ensures
        r matches Some(p) ==> find_from(haystack@, start as int, needle@) == Some(p as int),
        r is None ==> find_from(haystack@, start as int, needle@) is None,
{
    let h = haystack.len();
    let m = needle.len();
    if m > h {
        return None;
    }
    let mut k = start;
    while k <= h - m
        invariant
            start <= k,
            m == needle@.len() > 0,
            h == haystack@.len() >= m,
            find_from(haystack@, start as int, needle@) == find_from(haystack@, k as int, needle@),
        decreases h - k,
    {
        let mut j: usize = 0;
        while j < m && haystack[k + j] == needle[j]
            invariant
                j <= m,
                k + m <= h,
                m == needle@.len(),
                h == haystack@.len(),
                forall|t: int| 0 <= t < j ==> haystack@[k + t] == needle@[t],
            decreases m - j,
        {
            j = j + 1;
        }
        if j == m {
            assert(haystack@.subrange(k as int, k + m) =~= needle@);
            return Some(k + m);
        }
        assert(!occurs_at(haystack@, k as int, needle@)) by {
            if occurs_at(haystack@, k as int, needle@) {
                assert(haystack@.subrange(k as int, k + m)[j as int] == needle@[j as int]);
            }
        }
        k = k + 1;
    }
    None
}

/// The titles that a scan of the dump finds from position `pos` on: for each
/// `<page>`, bounded by the next `</page>` (or the end), the text of the first
/// `<title>` element after it, with its entities decoded, when that element lies
/// wholly inside the page and its raw text is non-empty UTF-8.  The scan goes on
/// from the page's end.
pub open spec fn titles_from(b: Seq<u8>, pos: int) -> Seq<Seq<char>>
    decreases b.len() - pos,
{
    if pos < 0 || pos >= b.len() {
        seq![]
    } else {
        match find_from(b, pos, encode_utf8("<page>"@)) {
            None => seq![],
            Some(ps) => {
                let pe = match find_from(b, ps, encode_utf8("</page>"@)) {
                    Some(p) => p - 7,
                    None => b.len() as int,
                };
                let rest = if pos < pe <= b.len() {
                    titles_from(b, pe)
                } else {
                    seq![]
                };
                match find_from(b, ps, encode_utf8("<title>"@)) {
                    None => rest,
                    Some(ts) => if ts >= pe {
                        rest
                    } else {
                        match find_from(b, ts, encode_utf8("</title>"@)) {
                            None => rest,
                            Some(q) => {
                                let te = q - 8;
                                if q <= pe && te > ts && valid_utf8(b.subrange(ts, te))
                                    && decode_utf8(b.subrange(ts, te)).len() > 0 {
                                    seq![xml_unescaped(decode_utf8(b.subrange(ts, te)))] + rest
                                } else {
                                    rest
                                }
                            },
                        }
                    },
                }
            },
        }
    }
}

/// How many times `needle` occurs in `h` at or after position `k`.
pub open spec fn occurrences_from(h: Seq<u8>, k: int, needle: Seq<u8>) -> nat
    decreases h.len() + 1 - k,
{
    if k < 0 || k + needle.len() > h.len() {
        0
    } else {
        (if occurs_at(h, k, needle) {
            1nat
        } else {
            0nat
        }) + occurrences_from(h, k + 1, needle)
    }
}

proof fn lemma_occurrences_monotone(h: Seq<u8>, j: int, k: int, needle: Seq<u8>)
    requires
        0 <= j <= k,
    ensures
        occurrences_from(h, k, needle) <= occurrences_from(h, j, needle),
    decreases k - j,
{
    if j < k {
        lemma_occurrences_monotone(h, j + 1, k, needle);
        if j + needle.len() > h.len() {
            assert(k + needle.len() > h.len());
        }
    }
}

proof fn lemma_occurrences_found(h: Seq<u8>, k: int, needle: Seq<u8>)
    requires
        0 <= k,
        find_from(h, k, needle) is Some,
    ensures
        occurrences_from(h, k, needle) == 1 + occurrences_from(
            h,
            find_from(h, k, needle)->0 - needle.len() + 1,
            needle,
        ),
    decreases h.len() + 1 - k,
{
    if !occurs_at(h, k, needle) {
        lemma_occurrences_found(h, k + 1, needle);
    }
}

proof fn lemma_titles_from_count(b: Seq<u8>, pos: int)
    requires
        0 <= pos,
    ensures
        titles_from(b, pos).len() <= occurrences_from(b, pos, encode_utf8("<page>"@)),
    decreases b.len() - pos,
{
    let open_tag = encode_utf8("<page>"@);
    let close_tag = encode_utf8("</page>"@);
    if pos < b.len() {
        if let Some(ps) = find_from(b, pos, open_tag) {
            lemma_find_from_bounds(b, pos, open_tag);
            lemma_find_from_bounds(b, ps, close_tag);
            lemma_occurrences_found(b, pos, open_tag);
            let pe = match find_from(b, ps, close_tag) {
                Some(p) => p - 7,
                None => b.len() as int,
            };
            reveal_strlit("</page>");
            reveal_strlit("<page>");
            lemma_ascii_tag("</page>");
            lemma_ascii_tag("<page>");
            if pos < pe <= b.len() {
                lemma_titles_from_count(b, pe);
                lemma_occurrences_monotone(b, ps - open_tag.len() + 1, pe, open_tag);
            }
        }
    }
}

/// A scan finds at most one title per page: no more titles than `<page>` tags.
pub proof fn lemma_titles_at_most_one_per_page(xml: Seq<char>)
    ensures
        titles_from(encode_utf8(xml), 0).len() <= occurrences_from(
            encode_utf8(xml),
            0,
            encode_utf8("<page>"@),
        ),
{
    lemma_titles_from_count(encode_utf8(xml), 0);
}

proof fn lemma_encode_utf8_append(a: Seq<char>, b: Seq<char>)
    ensures
        encode_utf8(a + b) == encode_utf8(a) + encode_utf8(b),
    decreases a.len(),
{
    if a.len() == 0 {
        assert(a + b =~= b);
        assert(encode_utf8(a) + encode_utf8(b) =~= encode_utf8(b));
    } else {
        assert((a + b).drop_first() =~= a.drop_first() + b);
        lemma_encode_utf8_append(a.drop_first(), b);
        assert(encode_utf8(a + b) =~= encode_utf8(a) + encode_utf8(b));
    }
}

proof fn lemma_scalar_not_lt(c: char)
    requires
        c != '<',
    ensures
        forall|j: int|
            0 <= j < encode_scalar(c as u32).len() ==> #[trigger] encode_scalar(c as u32)[j] != 60u8,
{
    let v = c as u32;
    assert(v != 60u32);
    assert(v <= 0x7F && v != 60u32 ==> leading_byte_width_1(v) != 60u8) by (bit_vector);
    assert(leading_byte_width_2(v) >= 0x80u8 && leading_byte_width_3(v) >= 0x80u8
        && leading_byte_width_4(v) >= 0x80u8 && last_continuation_byte(v) >= 0x80u8
        && second_last_continuation_byte(v) >= 0x80u8 && third_last_continuation_byte(v)
        >= 0x80u8) by (bit_vector);
}

proof fn lemma_encode_not_lt(t: Seq<char>)
    requires
        forall|i: int| 0 <= i < t.len() ==> t[i] != '<',
    ensures
        forall|i: int| 0 <= i < encode_utf8(t).len() ==> #[trigger] encode_utf8(t)[i] != 60u8,
    decreases t.len(),
{
    if t.len() > 0 {
        lemma_scalar_not_lt(t[0]);
        lemma_encode_not_lt(t.drop_first());
        let e = encode_scalar(t[0] as u32);
        assert forall|i: int| 0 <= i < encode_utf8(t).len() implies #[trigger] encode_utf8(t)[i]
            != 60u8 by {
            if i < e.len() {
                assert(encode_utf8(t)[i] == e[i]);
            } else {
                assert(encode_utf8(t)[i] == encode_utf8(t.drop_first())[i - e.len()]);
            }
        }
    }
}

proof fn lemma_tag_bytes()
    ensures
        encode_utf8("<page>"@) == seq![60u8, 112u8, 97u8, 103u8, 101u8, 62u8],
        encode_utf8("</page>"@) == seq![60u8, 47u8, 112u8, 97u8, 103u8, 101u8, 62u8],
        encode_utf8("<title>"@) == seq![60u8, 116u8, 105u8, 116u8, 108u8, 101u8, 62u8],
        encode_utf8("</title>"@) == seq![60u8, 47u8, 116u8, 105u8, 116u8, 108u8, 101u8, 62u8],
        encode_utf8("<page><title>"@) == seq![
            60u8, 112u8, 97u8, 103u8, 101u8, 62u8, 60u8, 116u8, 105u8, 116u8, 108u8, 101u8, 62u8,
        ],
{
    reveal_strlit("<page>");
    reveal_strlit("</page>");
    reveal_strlit("<title>");
    reveal_strlit("</title>");
    reveal_strlit("<page><title>");
    vstd::utf8::is_ascii_chars_encode_utf8("<page>"@);
    vstd::utf8::is_ascii_chars_encode_utf8("</page>"@);
    vstd::utf8::is_ascii_chars_encode_utf8("<title>"@);
    vstd::utf8::is_ascii_chars_encode_utf8("</title>"@);
    vstd::utf8::is_ascii_chars_encode_utf8("<page><title>"@);
    assert(encode_utf8("<page>"@) =~= seq![60u8, 112u8, 97u8, 103u8, 101u8, 62u8]);
    assert(encode_utf8("</page>"@) =~= seq![60u8, 47u8, 112u8, 97u8, 103u8, 101u8, 62u8]);
    assert(encode_utf8("<title>"@) =~= seq![60u8, 116u8, 105u8, 116u8, 108u8, 101u8, 62u8]);
    assert(encode_utf8("</title>"@) =~= seq![60u8, 47u8, 116u8, 105u8, 116u8, 108u8, 101u8, 62u8]);
    assert(encode_utf8("<page><title>"@) =~= seq![
        60u8, 112u8, 97u8, 103u8, 101u8, 62u8, 60u8, 116u8, 105u8, 116u8, 108u8, 101u8, 62u8,
    ]);
}

proof fn lemma_find_first(h: Seq<u8>, k: int, j: int, needle: Seq<u8>)
    requires
        0 <= k <= j,
        occurs_at(h, j, needle),
        forall|i: int| k <= i < j ==> !#[trigger] occurs_at(h, i, needle),
    ensures
        find_from(h, k, needle) == Some(j + needle.len()),
    decreases j - k,
{
    if k < j {
        lemma_find_first(h, k + 1, j, needle);
    }
}

proof fn lemma_find_none(h: Seq<u8>, k: int, needle: Seq<u8>)
    requires
        0 <= k,
        forall|i: int| k <= i ==> !#[trigger] occurs_at(h, i, needle),
    ensures
        find_from(h, k, needle) is None,
    decreases h.len() + 1 - k,
{
    if k + needle.len() <= h.len() {
        lemma_find_none(h, k + 1, needle);
    }
}

proof fn lemma_occurs_byte(h: Seq<u8>, i: int, needle: Seq<u8>, j: int)
    requires
        occurs_at(h, i, needle),
        0 <= j < needle.len(),
    ensures
        h[i + j] == needle[j],
{
    assert(h.subrange(i, i + needle.len())[j] == h[i + j]);
}

spec fn page_bytes(bt: Seq<u8>, bx: Seq<u8>) -> Seq<u8> {
    encode_utf8("<page><title>"@) + bt + encode_utf8("</title>"@) + bx + encode_utf8("</page>"@)
}

proof fn lemma_page_close_found(bt: Seq<u8>, bx: Seq<u8>)
    requires
        forall|i: int| 0 <= i < bt.len() ==> #[trigger] bt[i] != 60u8,
        forall|k: int| !#[trigger] occurs_at(bx, k, encode_utf8("</page>"@)),
    ensures
        find_from(page_bytes(bt, bx), 6, encode_utf8("</page>"@)) == Some(
            page_bytes(bt, bx).len() as int,
        ),
{
    lemma_tag_bytes();
    let h = page_bytes(bt, bx);
    let p1 = encode_utf8("<page><title>"@);
    let p2 = encode_utf8("</title>"@);
    let p3 = encode_utf8("</page>"@);
    let s2: int = 13int + bt.len();
    let o: int = s2 + 8;
    let s3: int = o + bx.len();
    assert(h.len() == s3 + 7);
    assert(h.subrange(s3, s3 + 7) =~= p3);
    assert forall|i: int| 0 <= i < 13 implies #[trigger] h[i] == p1[i] by {}
    assert forall|i: int| 13 <= i < s2 implies #[trigger] h[i] == bt[i - 13] by {}
    assert forall|i: int| s2 <= i < o implies #[trigger] h[i] == p2[i - s2] by {}
    assert forall|i: int| o <= i < s3 implies #[trigger] h[i] == bx[i - o] by {}
    assert(h[s3] == 60u8);
    assert forall|i: int| 6 <= i < 13 implies !#[trigger] occurs_at(h, i, p3) by {
        if occurs_at(h, i, p3) {
            lemma_occurs_byte(h, i, p3, 0);
            lemma_occurs_byte(h, i, p3, 1);
            assert(i == 6 || i == 7 || i == 8 || i == 9 || i == 10 || i == 11 || i == 12);
        }
    }
    assert forall|i: int| 13 <= i < s2 implies !#[trigger] occurs_at(h, i, p3) by {
        if occurs_at(h, i, p3) {
            lemma_occurs_byte(h, i, p3, 0);
        }
    }
    assert forall|i: int| s2 <= i < o implies !#[trigger] occurs_at(h, i, p3) by {
        if occurs_at(h, i, p3) {
            lemma_occurs_byte(h, i, p3, 0);
            lemma_occurs_byte(h, i, p3, 2);
            let j = i - s2;
            assert(j == 0 || j == 1 || j == 2 || j == 3 || j == 4 || j == 5 || j == 6 || j == 7);
        }
    }
    assert forall|i: int| o <= i < s3 implies !#[trigger] occurs_at(h, i, p3) by {
        if occurs_at(h, i, p3) {
            if i + 7 <= s3 {
                assert(bx.subrange(i - o, i - o + 7) =~= h.subrange(i, i + 7));
                assert(occurs_at(bx, i - o, p3));
            } else {
                let j = s3 - i;
                lemma_occurs_byte(h, i, p3, j);
                assert(h[i + j] == h[s3]);
                assert(j == 1 || j == 2 || j == 3 || j == 4 || j == 5 || j == 6);
            }
        }
    }
    lemma_find_first(h, 6, s3, p3);
}

proof fn lemma_title_close_found(bt: Seq<u8>, bx: Seq<u8>)
    requires
        forall|i: int| 0 <= i < bt.len() ==> #[trigger] bt[i] != 60u8,
    ensures
        find_from(page_bytes(bt, bx), 13, encode_utf8("</title>"@)) == Some(13int + bt.len() + 8),
        page_bytes(bt, bx).subrange(13, 13int + bt.len()) == bt,
        find_from(page_bytes(bt, bx), 0, encode_utf8("<page>"@)) == Some(6int),
        find_from(page_bytes(bt, bx), 6, encode_utf8("<title>"@)) == Some(13int),
{
    lemma_tag_bytes();
    let h = page_bytes(bt, bx);
    let p2 = encode_utf8("</title>"@);
    let s2: int = 13int + bt.len();
    assert(h.subrange(s2, s2 + 8) =~= p2);
    assert forall|i: int| 13 <= i < s2 implies !#[trigger] occurs_at(h, i, p2) by {
        if occurs_at(h, i, p2) {
            lemma_occurs_byte(h, i, p2, 0);
            assert(h[i] == bt[i - 13]);
        }
    }
    lemma_find_first(h, 13, s2, p2);
    assert(h.subrange(13, s2) =~= bt);
    assert(h.subrange(0, 6) =~= encode_utf8("<page>"@));
    lemma_find_first(h, 0, 0, encode_utf8("<page>"@));
    assert(h.subrange(6, 13) =~= encode_utf8("<title>"@));
    lemma_find_first(h, 6, 6, encode_utf8("<title>"@));
}

proof fn lemma_no_page_after(bt: Seq<u8>, bx: Seq<u8>)
    ensures
        titles_from(page_bytes(bt, bx), page_bytes(bt, bx).len() - 7) == Seq::<Seq<char>>::empty(),
{
    lemma_tag_bytes();
    let h = page_bytes(bt, bx);
    let pg = encode_utf8("<page>"@);
    let p3 = encode_utf8("</page>"@);
    let s3: int = h.len() - 7;
    assert(h.len() == 13 + bt.len() + 8 + bx.len() + 7);
    assert forall|i: int| s3 <= i implies !#[trigger] occurs_at(h, i, pg) by {
        if occurs_at(h, i, pg) {
            lemma_occurs_byte(h, i, pg, 0);
            lemma_occurs_byte(h, i, pg, 1);
            assert(h[s3 + 1] == p3[1]);
            assert(h[s3] == p3[0]);
        }
    }
    lemma_find_none(h, s3, pg);
}

/// The title of a page depends on nothing else in the page: a page whose first
/// element is a `<title>` with a non-empty text `title` (which, as element text,
/// holds no `<`) gives that text with its entities decoded, whatever other elements
/// (`<ns>`, `<redirect>`, `<revision>`, ...) follow it, as long as they hold no
/// `</page>`.
pub proof fn lemma_page_title_independent_of_other_elements(title: Seq<char>, others: Seq<char>)
    requires
        title.len() > 0,
        forall|i: int| 0 <= i < title.len() ==> title[i] != '<',
        forall|k: int| !#[trigger] occurs_at(encode_utf8(others), k, encode_utf8("</page>"@)),
    ensures
        titles_from(
            encode_utf8("<page><title>"@ + title + "</title>"@ + others + "</page>"@),
            0,
        ) == seq![xml_unescaped(title)],
{
    let bt = encode_utf8(title);
    let bx = encode_utf8(others);
    lemma_encode_utf8_append("<page><title>"@, title);
    lemma_encode_utf8_append("<page><title>"@ + title, "</title>"@);
    lemma_encode_utf8_append("<page><title>"@ + title + "</title>"@, others);
    lemma_encode_utf8_append("<page><title>"@ + title + "</title>"@ + others, "</page>"@);
    let h = encode_utf8("<page><title>"@ + title + "</title>"@ + others + "</page>"@);
    assert(h == page_bytes(bt, bx));
    lemma_encode_not_lt(title);
    vstd::utf8::encode_utf8_decode_utf8(title);
    vstd::utf8::encode_utf8_valid_utf8(title);
    assert(bt.len() > 0) by {
        if bt.len() == 0 {
            assert(bt =~= Seq::<u8>::empty());
        }
    }
    lemma_tag_bytes();
    lemma_page_close_found(bt, bx);
    lemma_title_close_found(bt, bx);
    lemma_no_page_after(bt, bx);
    assert(h.len() == 13 + bt.len() + 8 + bx.len() + 7);
    assert(titles_from(h, 0) =~= seq![xml_unescaped(title)] + titles_from(h, h.len() - 7));
}

/// Checks and decodes UTF-8.  Wraps `std::str::from_utf8`, which succeeds exactly
/// when the bytes are valid UTF-8; the string it returns holds the characters
/// they encode.
#[verifier::external_body]
fn utf8_str(b: &[u8]) -> (r: Option<&str>)
    ensures
        r matches Some(s) ==> valid_utf8(b@) && s@ == decode_utf8(b@),
        r is None ==> !valid_utf8(b@),
{
    std::str::from_utf8(b).ok()
}

proof fn lemma_ascii_tag(s: &str)
    requires
        vstd::string::is_ascii(s),
    ensures
        encode_utf8(s@).len() == s@.len(),
{
    vstd::utf8::is_ascii_chars_encode_utf8(s@);
}

/// Scan XML for <title> elements inside <page> blocks and return their text.
pub fn extract_titles(xml: &str) -> (res: Vec<String>)
    ensures
        res@.map_values(|t: String| t@) == titles_from(encode_utf8(xml@), 0),
{
    let bytes = xml.as_bytes();
    let ghost b = bytes@;
    let len = bytes.len();
    let page_open = "<page>".as_bytes();
    let page_close = "</page>".as_bytes();
    let title_open = "<title>".as_bytes();
    let title_close = "</title>".as_bytes();
    proof {
        reveal_strlit("<page>");
        reveal_strlit("</page>");
        reveal_strlit("<title>");
        reveal_strlit("</title>");
        lemma_ascii_tag("<page>");
        lemma_ascii_tag("</page>");
        lemma_ascii_tag("<title>");
        lemma_ascii_tag("</title>");
    }
    let mut titles: Vec<String> = Vec::new();
    let mut pos: usize = 0;
    while pos < len
        invariant
            b == bytes@,
            b == encode_utf8(xml@),
            len == b.len(),
            pos <= len,
            page_open@ == encode_utf8("<page>"@),
            page_close@ == encode_utf8("</page>"@),
            title_open@ == encode_utf8("<title>"@),
            title_close@ == encode_utf8("</title>"@),
            page_open@.len() == 6,
            page_close@.len() == 7,
            title_open@.len() == 7,
            title_close@.len() == 8,
            titles@.map_values(|t: String| t@) + titles_from(b, pos as int) == titles_from(b, 0),
        ensures
            titles@.map_values(|t: String| t@) == titles_from(b, 0),
        decreases len - pos,
    {
        let ghost before = titles@.map_values(|t: String| t@);
        let ghost old_pos = pos as int;
        // Find next <page> tag
        let page_start = match find_after(bytes, pos, page_open) {
            Some(p) => p,
            None => {
                assert(titles_from(b, old_pos) =~= Seq::<Seq<char>>::empty());
                assert(before + titles_from(b, old_pos) =~= before);
                break ;
            },
        };
        proof {
            lemma_find_from_bounds(b, old_pos, page_open@);
            lemma_find_from_bounds(b, page_start as int, page_close@);
            lemma_find_from_bounds(b, page_start as int, title_open@);
        }
        // Find next </page> to bound our search
        let page_end = match find_after(bytes, page_start, page_close) {
            Some(p) => p - 7,
            None => len,
        };
        let ghost rest = titles_from(b, page_end as int);
        // Find <title> within this page
        let title_start = match find_after(bytes, page_start, title_open) {
            Some(p) => p,
            None => {
                pos = page_end;
                continue ;
            },
        };
        // Must be before </page>
        if title_start >= page_end {
            pos = page_end;
            continue ;
        }
        proof {
            lemma_find_from_bounds(b, title_start as int, title_close@);
        }
        // Find </title>
        let title_end = match find_after(bytes, title_start, title_close) {
            Some(p) => p - 8,
            None => {
                pos = page_end;
                continue ;
            },
        };
        // The title must end before </page>
        if title_end > title_start && title_end + 8 <= page_end {
            if let Some(s) = utf8_str(&bytes[title_start..title_end]) {
                if !s.is_empty() {
                    let t = xml_unescape(s);
                    titles.push(t);
                    assert(titles@.map_values(|t: String| t@) =~= before.push(t@));
                    assert(before.push(t@) + rest =~= before + (seq![t@] + rest));
                }
            }
        }
        pos = page_end;
    }
    titles
}

// ---------------------------------------------------------------- sorted entries

/// Lexicographic order on bytes: `a` comes strictly before `b`.
pub open spec fn bytes_lt(a: Seq<u8>, b: Seq<u8>) -> bool
    decreases a.len(),
{
    if b.len() == 0 {
        false
    } else if a.len() == 0 {
        true
    } else if a[0] != b[0] {
        a[0] < b[0]
    } else {
        bytes_lt(a.drop_first(), b.drop_first())
    }
}

/// The order of `String`: lexicographic by UTF-8 bytes.
pub open spec fn str_lt(a: Seq<char>, b: Seq<char>) -> bool {
    bytes_lt(encode_utf8(a), encode_utf8(b))
}

/// The order of `(String, String)`: by the first string, then by the second.
pub open spec fn entry_lt(x: (Seq<char>, Seq<char>), y: (Seq<char>, Seq<char>)) -> bool {
    str_lt(x.0, y.0) || (x.0 == y.0 && str_lt(x.1, y.1))
}

pub open spec fn entry_le(x: (Seq<char>, Seq<char>), y: (Seq<char>, Seq<char>)) -> bool {
    x == y || entry_lt(x, y)
}

/// The characters of both strings of each entry.
pub open spec fn entry_views(v: Seq<(String, String)>) -> Seq<(Seq<char>, Seq<char>)> {
    v.map_values(|e: (String, String)| (e.0@, e.1@))
}

/// Each entry comes strictly before the next.
pub open spec fn strictly_ascending(s: Seq<(Seq<char>, Seq<char>)>) -> bool {
    forall|i: int| 0 <= i < s.len() - 1 ==> #[trigger] entry_lt(s[i], s[i + 1])
}

/// `s` with every element that equals the one before it removed.
pub open spec fn dedup_adjacent<A>(s: Seq<A>) -> Seq<A>
    decreases s.len(),
{
    if s.len() == 0 {
        seq![]
    } else if s.len() >= 2 && s[s.len() - 2] == s.last() {
        dedup_adjacent(s.drop_last())
    } else {
        dedup_adjacent(s.drop_last()).push(s.last())
    }
}

proof fn lemma_dedup_last<A>(s: Seq<A>)
    requires
        s.len() > 0,
    ensures
        dedup_adjacent(s).len() > 0,
        dedup_adjacent(s).last() == s.last(),
    decreases s.len(),
{
    if s.len() >= 2 && s[s.len() - 2] == s.last() {
        lemma_dedup_last(s.drop_last());
    }
}

proof fn lemma_dedup_to_set<A>(s: Seq<A>)
    ensures
        dedup_adjacent(s).to_set() == s.to_set(),
    decreases s.len(),
{
    if s.len() > 0 {
        let r = s.drop_last();
        lemma_dedup_to_set(r);
        assert(s =~= r.push(s.last()));
        r.lemma_push_to_set_commute(s.last());
        if s.len() >= 2 && s[s.len() - 2] == s.last() {
            lemma_dedup_last(r);
            assert(r.contains(s.last()));
            assert(r.to_set().insert(s.last()) =~= r.to_set());
        } else {
            dedup_adjacent(r).lemma_push_to_set_commute(s.last());
        }
    }
}

proof fn lemma_dedup_ascending(s: Seq<(Seq<char>, Seq<char>)>)
    requires
        forall|i: int| 0 <= i < s.len() - 1 ==> #[trigger] entry_le(s[i], s[i + 1]),
    ensures
        strictly_ascending(dedup_adjacent(s)),
    decreases s.len(),
{
    if s.len() > 0 {
        let r = s.drop_last();
        assert forall|i: int| 0 <= i < r.len() - 1 implies #[trigger] entry_le(r[i], r[i + 1]) by {
            assert(entry_le(s[i], s[i + 1]));
        }
        lemma_dedup_ascending(r);
        if !(s.len() >= 2 && s[s.len() - 2] == s.last()) && s.len() >= 2 {
            lemma_dedup_last(r);
            let d = dedup_adjacent(r);
            let e = d.push(s.last());
            let k = s.len() - 2;
            assert(entry_le(s[k], s[k + 1]));
            assert forall|i: int| 0 <= i < e.len() - 1 implies #[trigger] entry_lt(e[i], e[i + 1]) by {
                if i < d.len() - 1 {
                    assert(e[i] == d[i] && e[i + 1] == d[i + 1]);
                }
            }
        }
    }
}

/// The entries with each one that equals its predecessor dropped.
fn dedup_entries(v: &Vec<(String, String)>) -> (res: Vec<(String, String)>)
    ensures
        entry_views(res@) == dedup_adjacent(entry_views(v@)),
{
    let mut res: Vec<(String, String)> = Vec::new();
    let n = v.len();
    for i in 0..n
        invariant
            n == v@.len(),
            entry_views(res@) == dedup_adjacent(entry_views(v@.take(i as int))),
    {
        let ghost prev = entry_views(v@.take(i as int));
        let ghost next = entry_views(v@.take(i + 1));
        assert(next.drop_last() =~= prev);
        assert(next.last() == (v@[i as int].0@, v@[i as int].1@));
        let keep = i == 0 || !(v[i].0 == v[i - 1].0 && v[i].1 == v[i - 1].1);
        if keep {
            let e = (v[i].0.clone(), v[i].1.clone());
            res.push(e);
            assert(entry_views(res@) =~= dedup_adjacent(next));
        } else {
            assert(next[next.len() - 2] == (v@[i - 1].0@, v@[i - 1].1@));
        }
    }
    assert(v@.take(n as int) =~= v@);
    res
}

/// Sorts entries in parallel with `rayon`'s `ParallelSliceMut::par_sort` (a stable
/// sort by `Ord`, which orders tuples by their first field, then their second,
/// and strings by their bytes).  Claimed: the result holds the same entries and
/// each is at most the next in that order.
#[verifier::external_body]
fn par_sort_entries(v: &mut Vec<(String, String)>)
    ensures
        entry_views(final(v)@).to_multiset() == entry_views(old(v)@).to_multiset(),
        forall|i: int|
            0 <= i < final(v)@.len() - 1 ==> #[trigger] entry_le(
                entry_views(final(v)@)[i],
                entry_views(final(v)@)[i + 1],
            ),
{
    v.par_sort();
}

/// The entries of the titles, computed in parallel with `rayon`: each title goes
/// through `title_entry` in a `par_iter().map(..)` whose results are collected into a
/// `Vec`.  Claimed: one entry per title, in the titles' order.
#[verifier::external_body]
fn par_title_entries(titles: &Vec<String>, base_url: &str) -> (res: Vec<(String, String)>)
    ensures
        res@.len() == titles@.len(),
        forall|i: int|
            0 <= i < titles@.len() ==> (#[trigger] res@[i].0@, res@[i].1@) == title_entry_of(
                base_url@,
                titles@[i]@,
            ),
{
    titles.par_iter().map(|t| title_entry(base_url, t.as_str())).collect()
}

/// The article titles of a dump: its page titles without the pages of the
/// non-article namespaces.
pub open spec fn dump_article_titles(xml: Seq<char>) -> Seq<Seq<char>> {
    titles_from(encode_utf8(xml), 0).filter(|t: Seq<char>| !is_non_article_title(t))
}

/// The entries that the article titles of a dump give.
pub open spec fn dump_entries(xml: Seq<char>, lang: Seq<char>, project: Seq<char>) -> Seq<(Seq<char>, Seq<char>)> {
    dump_article_titles(xml).map_values(|t: Seq<char>| title_entry_of(wiki_base_url(lang, project), t))
}

/// The titles that are not pages of a non-article namespace, in order.
fn drop_non_articles(titles: &Vec<String>) -> (res: Vec<String>)
    ensures
        res@.map_values(|t: String| t@) == titles@.map_values(|t: String| t@).filter(
            |t: Seq<char>| !is_non_article_title(t),
        ),
{
    let ghost pred = |t: Seq<char>| !is_non_article_title(t);
    let ghost all = titles@.map_values(|t: String| t@);
    let mut res: Vec<String> = Vec::new();
    let n = titles.len();
    assert(all.take(0).filter(pred) =~= Seq::<Seq<char>>::empty()) by {
        reveal(Seq::filter);
    }
    for i in 0..n
        invariant
            n == titles@.len() == all.len(),
            all == titles@.map_values(|t: String| t@),
            pred == (|t: Seq<char>| !is_non_article_title(t)),
            res@.map_values(|t: String| t@) == all.take(i as int).filter(pred),
    {
        proof {
            assert(all.take(i + 1) =~= all.take(i as int).push(all[i as int]));
            all.take(i as int).lemma_filter_push(all[i as int], pred);
        }
        if !is_non_article(titles[i].as_str()) {
            res.push(titles[i].clone());
            assert(res@.map_values(|t: String| t@) =~= all.take(i as int).filter(pred).push(
                all[i as int],
            ));
        } else {
            assert(res@.map_values(|t: String| t@) =~= all.take(i as int).filter(pred));
        }
    }
    assert(all.take(n as int) =~= all);
    res
}

/// Distinct titles never share a headword: two entries of a dump with the same
/// headword are the same entry, so a dictionary made of them has no two cards
/// with one heading.
pub proof fn lemma_dump_headwords_unique(
    xml: Seq<char>,
    lang: Seq<char>,
    project: Seq<char>,
    x: (Seq<char>, Seq<char>),
    y: (Seq<char>, Seq<char>),
)
    requires
        dump_entries(xml, lang, project).contains(x),
        dump_entries(xml, lang, project).contains(y),
        x.0 == y.0,
    ensures
        x == y,
{
    let titles = dump_article_titles(xml);
    let base = wiki_base_url(lang, project);
    let i = choose|i: int| 0 <= i < titles.len() && dump_entries(xml, lang, project)[i] == x;
    let j = choose|j: int| 0 <= j < titles.len() && dump_entries(xml, lang, project)[j] == y;
    assert(x == title_entry_of(base, titles[i]));
    assert(y == title_entry_of(base, titles[j]));
    lemma_dsl_escape_roundtrip(titles[i]);
    lemma_dsl_escape_roundtrip(titles[j]);
}

/// The dictionary entries of the article titles in a dump's XML: one per distinct
/// title entry, sorted, without duplicates.  Titles of non-article namespace pages
/// are skipped.
pub fn titles_from_xml(xml: &str, lang: &str, project: &str) -> (res: Vec<(String, String)>)
    ensures
        strictly_ascending(entry_views(res@)),
        entry_views(res@).to_set() == dump_entries(xml@, lang@, project@).to_set(),
{
    let all_titles = extract_titles(xml);
    let titles = drop_non_articles(&all_titles);
    let base = wiki_base(lang, project);
    let mut entries = par_title_entries(&titles, base.as_str());
    let ghost mapped = entry_views(entries@);
    proof {
        assert(mapped =~= dump_entries(xml@, lang@, project@)) by {
            assert(titles@.map_values(|t: String| t@) == dump_article_titles(xml@));
            assert forall|i: int| 0 <= i < mapped.len() implies mapped[i] == dump_entries(
                xml@,
                lang@,
                project@,
            )[i] by {
                assert(titles@.map_values(|t: String| t@)[i] == titles@[i]@);
            }
        }
    }
    par_sort_entries(&mut entries);
    let res = dedup_entries(&entries);
    proof {
        let sorted = entry_views(entries@);
        lemma_dedup_ascending(sorted);
        lemma_dedup_to_set(sorted);
        sorted.to_multiset_ensures();
        mapped.to_multiset_ensures();
        assert forall|x: (Seq<char>, Seq<char>)| #[trigger] sorted.to_set().contains(x)
            <==> mapped.to_set().contains(x) by {
            assert(sorted.contains(x) <==> sorted.to_multiset().count(x) > 0);
            assert(mapped.contains(x) <==> mapped.to_multiset().count(x) > 0);
        }
        assert(sorted.to_set() =~= mapped.to_set());
    }
    res
}

// ---------------------------------------------------------------- dumps

/// What `flate2`'s `GzDecoder` reads from `data` to its end: the decompressed
/// bytes, or `None` when reading fails.
pub uninterp spec fn gunzipped(data: Seq<u8>) -> Option<Seq<u8>>;

/// Decompresses a gzip stream by reading a `flate2::read::GzDecoder` over `data`
/// to its end.  Claimed: the outcome is a function of `data` alone; on success the
/// bytes read, on failure the reader's error.
#[verifier::external_body]
fn gunzip(data: &[u8]) -> (res: Result<Vec<u8>, std::io::Error>)
    ensures
        res matches Ok(v) ==> gunzipped(data@) == Some(v@),
        res is Err ==> gunzipped(data@) is None,
{
    let mut decoder = flate2::read::GzDecoder::new(data);
    let mut contents: Vec<u8> = Vec::new();
    match decoder.read_to_end(&mut contents) {
        Ok(_) => Ok(contents),
        Err(e) => Err(e),
    }
}

/// The characters that `String::from_utf8_lossy` reads from `data`.
pub uninterp spec fn utf8_lossy(data: Seq<u8>) -> Seq<char>;

/// Decodes UTF-8 with `String::from_utf8_lossy`, which replaces each invalid
/// sequence by U+FFFD.  Claimed: the result is a function of the bytes, and valid
/// UTF-8 decodes to the characters it encodes.  Which characters the invalid
/// sequences become is not stated beyond the name.
#[verifier::external_body]
fn string_from_utf8_lossy(data: &[u8]) -> (res: String)
    ensures
        res@ == utf8_lossy(data@),
        valid_utf8(data@) ==> res@ == decode_utf8(data@),
{
    String::from_utf8_lossy(data).into_owned()
}

/// The dictionary entries of the decompressed bytes of a dump, read as UTF-8 with
/// invalid sequences replaced.
pub fn titles_from_contents(contents: &[u8], lang: &str, project: &str) -> (res: Vec<(String, String)>)
    ensures
        strictly_ascending(entry_views(res@)),
        entry_views(res@).to_set() == dump_entries(utf8_lossy(contents@), lang@, project@).to_set(),
{
    // Convert to string - all-titles dumps are reasonably sized
    let xml = string_from_utf8_lossy(contents);
    titles_from_xml(xml.as_str(), lang, project)
}

/// Extract all article titles from the bytes of an all-titles-in-ns0 dump.
/// Returns (escaped_headword, "<a href=\"url\">url</a>") pairs, sorted, without
/// duplicates.
pub fn parse_all_titles(data: &[u8], lang: &str, project: &str) -> (res: Result<Vec<(String, String)>, WikiDictError>)
    ensures
        res is Err <==> gunzipped(data@) is None,
        res matches Err(e) ==> e is Io,
        res matches Ok(v) ==> {
            &&& strictly_ascending(entry_views(v@))
            &&& entry_views(v@).to_set() == dump_entries(
                utf8_lossy(gunzipped(data@)->0),
                lang@,
                project@,
            ).to_set()
        },
{
    let contents = match gunzip(data) {
        Ok(c) => c,
        Err(e) => {
            return Err(WikiDictError::Io(e));
        },
    };
    Ok(titles_from_contents(contents.as_slice(), lang, project))
}

} // verus!
