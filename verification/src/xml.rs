use vstd::prelude::*;
use vstd::utf8::is_scalar;
use crate::text::{concat_map, lemma_concat_map_take_step, push_char, push_str, str_chars};

verus! {

// ---------------------------------------------------------------- escaping

/// How one character is written inside an XML attribute value.
pub open spec fn xml_escape_char(c: char) -> Seq<char> {
    if c == '&' {
        "&amp;"@
    } else if c == '"' {
        "&quot;"@
    } else if c == '<' {
        "&lt;"@
    } else if c == '>' {
        "&gt;"@
    } else {
        seq![c]
    }
}

/// `s` with `&`, `"`, `<` and `>` replaced by their XML entities.
pub open spec fn xml_escaped(s: Seq<char>) -> Seq<char> {
    concat_map(s, |c: char| xml_escape_char(c))
}

/// Replaces `&`, `"`, `<` and `>` by their XML entities.
pub fn xml_escape(s: &str) -> (res: String)
    ensures
        res@ == xml_escaped(s@),
{
    let cs = str_chars(s);
    let mut res = String::new();
    let n = cs.len();
    let ghost f = |c: char| xml_escape_char(c);
    for i in 0..n
        invariant
            n == cs.len(),
            cs@ == s@,
            f == (|c: char| xml_escape_char(c)),
            res@ == concat_map(cs@.take(i as int), f),
    {
        let c = cs[i];
        if c == '&' {
            push_str(&mut res, "&amp;");
        } else if c == '"' {
            push_str(&mut res, "&quot;");
        } else if c == '<' {
            push_str(&mut res, "&lt;");
        } else if c == '>' {
            push_str(&mut res, "&gt;");
        } else {
            push_char(&mut res, c);
        }
        proof {
            lemma_concat_map_take_step(cs@, i as int, f);
        }
    }
    assert(cs@.take(n as int) =~= cs@);
    res
}

// ---------------------------------------------------------------- unescaping

/// `c` is a digit in base 10, or in base 16 when `hex`.
pub open spec fn is_digit_of(c: char, hex: bool) -> bool {
    ('0' <= c && c <= '9') || (hex && (('a' <= c && c <= 'f') || ('A' <= c && c <= 'F')))
}

/// The value of a decimal or hexadecimal digit.
pub open spec fn digit_value(c: char) -> int {
    if '0' <= c && c <= '9' {
        c as int - 0x30
    } else if 'a' <= c && c <= 'f' {
        c as int - 0x61 + 10
    } else {
        c as int - 0x41 + 10
    }
}

/// How many digits follow one another in `s` from position `k` on.
pub open spec fn digit_run(s: Seq<char>, k: int, hex: bool) -> nat
    decreases s.len() - k,
{
    if 0 <= k < s.len() && is_digit_of(s[k], hex) {
        1 + digit_run(s, k + 1, hex)
    } else {
        0
    }
}

/// The number that the digits `d` write in base 10, or 16 when `hex`.
pub open spec fn digits_value(d: Seq<char>, hex: bool) -> int
    decreases d.len(),
{
    if d.len() == 0 {
        0
    } else {
        digits_value(d.drop_last(), hex) * (if hex {
            16int
        } else {
            10int
        }) + digit_value(d.last())
    }
}

/// A character reference at the start of `s`: `&#` and up to 7 decimal digits,
/// or `&#x` (or `&#X`) and up to 6 hexadecimal digits, then `;`, naming a Unicode
/// scalar value.  Gives the character and the length of the reference.
pub open spec fn char_ref(s: Seq<char>) -> Option<(char, int)> {
    if s.len() >= 3 && s[0] == '&' && s[1] == '#' {
        let hex = s[2] == 'x' || s[2] == 'X';
        let start: int = if hex {
            3
        } else {
            2
        };
        let k = digit_run(s, start, hex);
        let max: int = if hex {
            6
        } else {
            7
        };
        if 1 <= k <= max && start + k < s.len() && s[start + k] == ';' {
            let v = digits_value(s.subrange(start, start + k), hex);
            if is_scalar(v as u32) {
                Some(((v as u32) as char, start + k + 1))
            } else {
                None
            }
        } else {
            None
        }
    } else {
        None
    }
}

/// The entity or character reference at the start of `s`, if any: the character
/// it stands for and its length.  The named entities are those of XML:
/// `&amp; &lt; &gt; &quot; &apos;`.
pub open spec fn entity_at(s: Seq<char>) -> Option<(char, int)> {
    if "&amp;"@.is_prefix_of(s) {
        Some(('&', 5))
    } else if "&lt;"@.is_prefix_of(s) {
        Some(('<', 4))
    } else if "&gt;"@.is_prefix_of(s) {
        Some(('>', 4))
    } else if "&quot;"@.is_prefix_of(s) {
        Some(('"', 6))
    } else if "&apos;"@.is_prefix_of(s) {
        Some(('\'', 6))
    } else {
        char_ref(s)
    }
}

/// XML character data read as text: each entity or character reference becomes
/// the character it stands for; everything else is kept.
pub open spec fn xml_unescaped(s: Seq<char>) -> Seq<char>
    decreases s.len(),
{
    if s.len() == 0 {
        seq![]
    } else {
        match entity_at(s) {
            Some((c, n)) => if 0 < n <= s.len() {
                seq![c] + xml_unescaped(s.skip(n))
            } else {
                seq![s[0]] + xml_unescaped(s.drop_first())
            },
            None => seq![s[0]] + xml_unescaped(s.drop_first()),
        }
    }
}

/// The character with a given scalar value.  Wraps `char::from_u32`, which returns
/// `None` exactly when the value is not a Unicode scalar value.
#[verifier::external_body]
fn char_from_u32(v: u32) -> (r: Option<char>)
    ensures
        r == (if is_scalar(v) {
            Some(v as char)
        } else {
            None::<char>
        }),
{
    char::from_u32(v)
}

/// The characters `p` begin `cs` at position `i`.
fn chars_at(cs: &Vec<char>, i: usize, p: &Vec<char>) -> (b: bool)
    requires
        i <= cs.len(),
    ensures
        b == p@.is_prefix_of(cs@.skip(i as int)),
{
    let n = p.len();
    if n > cs.len() - i {
        return false;
    }
    let mut j: usize = 0;
    while j < n
        invariant
            j <= n == p.len(),
            i + n <= cs.len(),
            forall|t: int| 0 <= t < j ==> cs@[i + t] == p@[t],
        decreases n - j,
    {
        if cs[i + j] != p[j] {
            proof {
                if p@.is_prefix_of(cs@.skip(i as int)) {
                    assert(cs@.skip(i as int)[j as int] == cs@[i + j]);
                }
            }
            return false;
        }
        j = j + 1;
    }
    assert(cs@.skip(i as int).subrange(0, n as int) =~= p@);
    true
}

fn is_digit_char(c: char, hex: bool) -> (b: bool)
    ensures
        b == is_digit_of(c, hex),
{
    ('0' <= c && c <= '9') || (hex && (('a' <= c && c <= 'f') || ('A' <= c && c <= 'F')))
}

fn digit_value_of(c: char, hex: bool) -> (v: u32)
    requires
        is_digit_of(c, hex),
    ensures
        v == digit_value(c),
        v < (if hex {
            16int
        } else {
            10int
        }),
{
    if '0' <= c && c <= '9' {
        c as u32 - 0x30
    } else if 'a' <= c && c <= 'f' {
        c as u32 - 0x61 + 10
    } else {
        c as u32 - 0x41 + 10
    }
}

/// `16^k` when `hex`, `10^k` otherwise.
pub open spec fn radix_power(hex: bool, k: nat) -> int
    decreases k,
{
    if k == 0 {
        1
    } else {
        radix_power(hex, (k - 1) as nat) * (if hex {
            16int
        } else {
            10int
        })
    }
}

proof fn lemma_radix_power_bound(hex: bool, k: nat)
    requires
        k <= (if hex {
            6nat
        } else {
            7nat
        }),
    ensures
        radix_power(hex, k) <= 16777216,
{
    reveal_with_fuel(radix_power, 8);
    if k == 0 {
    } else if k == 1 {
    } else if k == 2 {
    } else if k == 3 {
    } else if k == 4 {
    } else if k == 5 {
    } else if k == 6 {
    } else {
    }
}

/// The character reference at position `i` of `cs`, if any.
fn char_ref_at(cs: &Vec<char>, i: usize) -> (r: Option<(char, usize)>)
    requires
        i <= cs.len(),
    ensures
        match char_ref(cs@.skip(i as int)) {
            Some((c, n)) => r == Some((c, n as usize)),
            None => r is None,
        },
{
    let ghost s = cs@.skip(i as int);
    let len = cs.len();
    if !(len - i >= 3 && cs[i] == '&' && cs[i + 1] == '#') {
        return None;
    }
    let hex = cs[i + 2] == 'x' || cs[i + 2] == 'X';
    let start: usize = if hex { 3 } else { 2 };
    let max: usize = if hex { 6 } else { 7 };
    let radix: u32 = if hex { 16 } else { 10 };
    let mut k: usize = 0;
    let mut v: u32 = 0;
    let ghost mut p: int = 1;
    while k < max && start + k < len - i && is_digit_char(cs[i + start + k], hex)
        invariant
            s == cs@.skip(i as int),
            len == cs.len(),
            i + 3 <= len,
            start == (if hex { 3usize } else { 2usize }),
            max == (if hex { 6usize } else { 7usize }),
            radix == (if hex { 16u32 } else { 10u32 }),
            k <= max,
            p == radix_power(hex, k as nat),
            v < p,
            v == digits_value(s.subrange(start as int, start + k), hex),
            digit_run(s, start as int, hex) == k + digit_run(s, start + k, hex),
        decreases max - k,
    {
        let d = digit_value_of(cs[i + start + k], hex);
        proof {
            lemma_radix_power_bound(hex, (k + 1) as nat);
        }
        assert(v * radix + d < p * radix) by (nonlinear_arith)
            requires
                v < p,
                d < radix,
        ;
        assert(s.subrange(start as int, start + k + 1).drop_last() =~= s.subrange(
            start as int,
            start + k,
        ));
        v = v * radix + d;
        proof {
            p = p * radix;
        }
        k = k + 1;
    }
    proof {
        if k < max || start + k >= len - i {
            assert(digit_run(s, start + k, hex) == 0);
        }
    }
    let ghost run = digit_run(s, start as int, hex);
    if k == 0 || start + k >= len - i {
        return None;
    }
    if k == max && is_digit_char(cs[i + start + k], hex) {
        assert(s.len() == len - i);
        assert(s[start + k] == cs@[i + start + k]);
        assert(is_digit_of(s[start + k], hex));
        assert(digit_run(s, start + k, hex) == 1 + digit_run(s, start + k + 1, hex));
        return None;
    }
    if cs[i + start + k] != ';' {
        return None;
    }
    assert(run == k);
    match char_from_u32(v) {
        Some(c) => Some((c, start + k + 1)),
        None => None,
    }
}

/// The entity or character reference at position `i` of `cs`, if any; `names`
/// holds the characters of `&amp; &lt; &gt; &quot; &apos;`, in that order.
fn entity_at_pos(cs: &Vec<char>, i: usize, names: &Vec<Vec<char>>) -> (r: Option<(char, usize)>)
    requires
        i < cs.len(),
        names@.len() == 5,
        names@[0]@ == "&amp;"@,
        names@[1]@ == "&lt;"@,
        names@[2]@ == "&gt;"@,
        names@[3]@ == "&quot;"@,
        names@[4]@ == "&apos;"@,
    ensures
        match entity_at(cs@.skip(i as int)) {
            Some((c, n)) => r == Some((c, n as usize)) && 0 < n <= cs@.len() - i,
            None => r is None,
        },
{
    proof {
        reveal_strlit("&amp;");
        reveal_strlit("&lt;");
        reveal_strlit("&gt;");
        reveal_strlit("&quot;");
        reveal_strlit("&apos;");
    }
    if chars_at(cs, i, &names[0]) {
        Some(('&', 5))
    } else if chars_at(cs, i, &names[1]) {
        Some(('<', 4))
    } else if chars_at(cs, i, &names[2]) {
        Some(('>', 4))
    } else if chars_at(cs, i, &names[3]) {
        Some(('"', 6))
    } else if chars_at(cs, i, &names[4]) {
        Some(('\'', 6))
    } else {
        char_ref_at(cs, i)
    }
}

/// Reads XML character data as text: entities and character references become the
/// characters they stand for.
pub fn xml_unescape(s: &str) -> (res: String)
    ensures
        res@ == xml_unescaped(s@),
{
    let cs = str_chars(s);
    let names: Vec<Vec<char>> = vec![
        str_chars("&amp;"),
        str_chars("&lt;"),
        str_chars("&gt;"),
        str_chars("&quot;"),
        str_chars("&apos;"),
    ];
    let mut res = String::new();
    let n = cs.len();
    let mut i: usize = 0;
    assert(cs@.skip(0) =~= cs@);
    while i < n
        invariant
            n == cs.len(),
            i <= n,
            cs@ == s@,
            names@.len() == 5,
            names@[0]@ == "&amp;"@,
            names@[1]@ == "&lt;"@,
            names@[2]@ == "&gt;"@,
            names@[3]@ == "&quot;"@,
            names@[4]@ == "&apos;"@,
            res@ + xml_unescaped(cs@.skip(i as int)) == xml_unescaped(cs@),
        decreases n - i,
    {
        let ghost rest = cs@.skip(i as int);
        match entity_at_pos(&cs, i, &names) {
            Some((c, k)) => {
                push_char(&mut res, c);
                assert(rest.skip(k as int) =~= cs@.skip(i + k));
                i = i + k;
            },
            None => {
                push_char(&mut res, cs[i]);
                assert(rest.drop_first() =~= cs@.skip(i + 1));
                i = i + 1;
            },
        }
    }
    assert(cs@.skip(n as int) =~= Seq::<char>::empty());
    assert(res@ =~= xml_unescaped(cs@));
    res
}

// ---------------------------------------------------------------- laws

/// Escaping goes character by character: `&`, `"`, `<` and `>` are written as the
/// named entities `&amp;`, `&quot;`, `&lt;` and `&gt;`, every other character as
/// itself.
pub proof fn lemma_xml_escape_table(c: char, s: Seq<char>)
    ensures
        xml_escaped(seq!['&'] + s) == "&amp;"@ + xml_escaped(s),
        xml_escaped(seq!['"'] + s) == "&quot;"@ + xml_escaped(s),
        xml_escaped(seq!['<'] + s) == "&lt;"@ + xml_escaped(s),
        xml_escaped(seq!['>'] + s) == "&gt;"@ + xml_escaped(s),
        c != '&' && c != '"' && c != '<' && c != '>' ==> xml_escaped(seq![c] + s) == seq![c]
            + xml_escaped(s),
{
    assert((seq!['&'] + s).drop_first() =~= s);
    assert((seq!['"'] + s).drop_first() =~= s);
    assert((seq!['<'] + s).drop_first() =~= s);
    assert((seq!['>'] + s).drop_first() =~= s);
    assert((seq![c] + s).drop_first() =~= s);
}

/// Escaped text holds no `<`, `>` or `"`, so it is safe inside a quoted attribute.
pub proof fn lemma_xml_escaped_no_markup(s: Seq<char>)
    ensures
        forall|i: int|
            0 <= i < xml_escaped(s).len() ==> #[trigger] xml_escaped(s)[i] != '<'
                && xml_escaped(s)[i] != '>' && xml_escaped(s)[i] != '"',
{
    reveal_strlit("&amp;");
    reveal_strlit("&quot;");
    reveal_strlit("&lt;");
    reveal_strlit("&gt;");
    let f = |c: char| xml_escape_char(c);
    let p = |c: char| c != '<' && c != '>' && c != '"';
    assert forall|a: char, j: int| 0 <= j < f(a).len() implies #[trigger] p(f(a)[j]) by {}
    crate::text::lemma_concat_map_all(s, f, p);
    assert forall|i: int| 0 <= i < xml_escaped(s).len() implies #[trigger] xml_escaped(s)[i] != '<'
        && xml_escaped(s)[i] != '>' && xml_escaped(s)[i] != '"' by {
        assert(p(concat_map(s, f)[i]));
    }
}

/// Reading escaped text as XML character data gives the text back.
pub proof fn lemma_xml_escape_roundtrip(s: Seq<char>)
    ensures
        xml_unescaped(xml_escaped(s)) == s,
    decreases s.len(),
{
    reveal_strlit("&amp;");
    reveal_strlit("&quot;");
    reveal_strlit("&lt;");
    reveal_strlit("&gt;");
    reveal_strlit("&apos;");
    if s.len() > 0 {
        let c = s[0];
        let x = xml_escaped(s.drop_first());
        let t = xml_escaped(s);
        lemma_xml_escape_roundtrip(s.drop_first());
        assert(t == xml_escape_char(c) + x);
        let e = xml_escape_char(c);
        assert(t.subrange(0, e.len() as int) =~= e);
        assert(t.skip(e.len() as int) =~= x);
        if c == '&' {
            assert("&amp;"@.is_prefix_of(t));
        } else if c == '<' {
            assert(t[1] == 'l');
            assert(!"&amp;"@.is_prefix_of(t));
            assert("&lt;"@.is_prefix_of(t));
        } else if c == '>' {
            assert(t[1] == 'g');
            assert(!"&amp;"@.is_prefix_of(t));
            assert(!"&lt;"@.is_prefix_of(t));
            assert("&gt;"@.is_prefix_of(t));
        } else if c == '"' {
            assert(t[1] == 'q');
            assert(!"&amp;"@.is_prefix_of(t));
            assert(!"&lt;"@.is_prefix_of(t));
            assert(!"&gt;"@.is_prefix_of(t));
            assert("&quot;"@.is_prefix_of(t));
        } else {
            assert(t[0] == c);
            assert(!"&amp;"@.is_prefix_of(t));
            assert(!"&lt;"@.is_prefix_of(t));
            assert(!"&gt;"@.is_prefix_of(t));
            assert(!"&quot;"@.is_prefix_of(t));
            assert(!"&apos;"@.is_prefix_of(t));
            assert(entity_at(t) is None);
            assert(t.drop_first() =~= x);
        }
        assert(seq![c] + s.drop_first() =~= s);
    }
}

} // verus!
