use vstd::prelude::*;
use crate::text::push_str;

verus! {

/// The header of a DSL file: its name and its index and contents languages, each on
/// a line of its own, then an empty line.
pub open spec fn dsl_header_text(name: Seq<char>, index_lang: Seq<char>, contents_lang: Seq<char>) -> Seq<char> {
    "#NAME \""@ + name + "\"\n#INDEX_LANGUAGE \""@ + index_lang + "\"\n#CONTENTS_LANGUAGE \""@
        + contents_lang + "\"\n\n"@
}

/// A DSL card: the headword on a line of its own, then the body on a line that
/// starts with a tab.
pub open spec fn dsl_entry_text(headword: Seq<char>, body: Seq<char>) -> Seq<char> {
    headword + "\n\t"@ + body + "\n"@
}

/// The header lines of a DSL file.
pub fn dsl_header(name: &str, index_lang: &str, contents_lang: &str) -> (res: String)
    ensures
        res@ == dsl_header_text(name@, index_lang@, contents_lang@),
{
    let mut s = String::new();
    push_str(&mut s, "#NAME \"");
    push_str(&mut s, name);
    push_str(&mut s, "\"\n#INDEX_LANGUAGE \"");
    push_str(&mut s, index_lang);
    push_str(&mut s, "\"\n#CONTENTS_LANGUAGE \"");
    push_str(&mut s, contents_lang);
    push_str(&mut s, "\"\n\n");
    s
}

/// One pre-formatted entry (headword, definition body) as a DSL card.
pub fn dsl_entry(headword: &str, body: &str) -> (res: String)
    ensures
        res@ == dsl_entry_text(headword@, body@),
{
    let mut s = String::new();
    push_str(&mut s, headword);
    push_str(&mut s, "\n\t");
    push_str(&mut s, body);
    push_str(&mut s, "\n");
    s
}

/// The header is three lines and an empty one: the first line names the dictionary,
/// the second gives the index language and the third the contents language, each
/// value between double quotes.
pub proof fn lemma_dsl_header_lines(name: Seq<char>, index_lang: Seq<char>, contents_lang: Seq<char>)
    ensures
        ({
            let h = dsl_header_text(name, index_lang, contents_lang);
            let l1 = "#NAME \""@ + name + "\"\n"@;
            let l2 = "#INDEX_LANGUAGE \""@ + index_lang + "\"\n"@;
            let l3 = "#CONTENTS_LANGUAGE \""@ + contents_lang + "\"\n"@;
            &&& l1.is_prefix_of(h)
            &&& h.subrange(l1.len() as int, (l1.len() + l2.len()) as int) == l2
            &&& (l3 + "\n"@).is_suffix_of(h)
        }),
{
    let h = dsl_header_text(name, index_lang, contents_lang);
    let l1 = "#NAME \""@ + name + "\"\n"@;
    let l2 = "#INDEX_LANGUAGE \""@ + index_lang + "\"\n"@;
    let l3 = "#CONTENTS_LANGUAGE \""@ + contents_lang + "\"\n"@;
    reveal_strlit("\"\n#INDEX_LANGUAGE \"");
    reveal_strlit("\"\n#CONTENTS_LANGUAGE \"");
    reveal_strlit("\"\n\n");
    reveal_strlit("\"\n");
    reveal_strlit("#INDEX_LANGUAGE \"");
    reveal_strlit("#CONTENTS_LANGUAGE \"");
    reveal_strlit("\n");
    assert(h =~= l1 + l2 + (l3 + "\n"@));
    assert(l1 =~= h.subrange(0, l1.len() as int));
    assert(h.subrange(l1.len() as int, (l1.len() + l2.len()) as int) =~= l2);
    assert((l3 + "\n"@) =~= h.subrange(h.len() - (l3 + "\n"@).len(), h.len() as int));
}

/// Each argument shows in the header: two headers that differ in one argument
/// alone differ.
pub proof fn lemma_dsl_header_distinguishes(
    name: Seq<char>,
    index_lang: Seq<char>,
    contents_lang: Seq<char>,
    other: Seq<char>,
)
    ensures
        other != name ==> dsl_header_text(other, index_lang, contents_lang) != dsl_header_text(
            name,
            index_lang,
            contents_lang,
        ),
        other != index_lang ==> dsl_header_text(name, other, contents_lang) != dsl_header_text(
            name,
            index_lang,
            contents_lang,
        ),
        other != contents_lang ==> dsl_header_text(name, index_lang, other) != dsl_header_text(
            name,
            index_lang,
            contents_lang,
        ),
{
    let h = dsl_header_text(name, index_lang, contents_lang);
    let a = "#NAME \""@;
    let b = "\"\n#INDEX_LANGUAGE \""@;
    let c = "\"\n#CONTENTS_LANGUAGE \""@;
    let d = "\"\n\n"@;
    if dsl_header_text(other, index_lang, contents_lang) == h {
        let g = dsl_header_text(other, index_lang, contents_lang);
        assert(h.len() == a.len() + name.len() + b.len() + index_lang.len() + c.len() + contents_lang.len() + d.len());
        assert(g.len() == a.len() + other.len() + b.len() + index_lang.len() + c.len() + contents_lang.len() + d.len());
        assert(other.len() == name.len());
        assert forall|j: int| 0 <= j < name.len() implies other[j] == name[j] by {
            assert(g[a.len() + j] == other[j]);
            assert(h[a.len() + j] == name[j]);
        }
        assert(other =~= name);
    }
    if dsl_header_text(name, other, contents_lang) == h {
        let g = dsl_header_text(name, other, contents_lang);
        let k = a.len() + name.len() + b.len();
        assert(h.len() == a.len() + name.len() + b.len() + index_lang.len() + c.len() + contents_lang.len() + d.len());
        assert(g.len() == a.len() + name.len() + b.len() + other.len() + c.len() + contents_lang.len() + d.len());
        assert(other.len() == index_lang.len());
        assert forall|j: int| 0 <= j < index_lang.len() implies other[j] == index_lang[j] by {
            assert(g[k + j] == other[j]);
            assert(h[k + j] == index_lang[j]);
        }
        assert(other =~= index_lang);
    }
    if dsl_header_text(name, index_lang, other) == h {
        let g = dsl_header_text(name, index_lang, other);
        let k = a.len() + name.len() + b.len() + index_lang.len() + c.len();
        assert(h.len() == a.len() + name.len() + b.len() + index_lang.len() + c.len() + contents_lang.len() + d.len());
        assert(g.len() == a.len() + name.len() + b.len() + index_lang.len() + c.len() + other.len() + d.len());
        assert(other.len() == contents_lang.len());
        assert forall|j: int| 0 <= j < contents_lang.len() implies other[j] == contents_lang[j] by {
            assert(g[k + j] == other[j]);
            assert(h[k + j] == contents_lang[j]);
        }
        assert(other =~= contents_lang);
    }
}

/// A card is the headword on a line of its own, then the body on a line that starts
/// with a tab; two cards are equal only for equal headwords and equal bodies.
pub proof fn lemma_dsl_entry_parts(headword: Seq<char>, body: Seq<char>, headword2: Seq<char>, body2: Seq<char>)
    requires
        headword.len() == headword2.len(),
    ensures
        (headword + "\n"@).is_prefix_of(dsl_entry_text(headword, body)),
        ("\t"@ + body + "\n"@).is_suffix_of(dsl_entry_text(headword, body)),
        dsl_entry_text(headword, body) == dsl_entry_text(headword2, body2) ==> headword == headword2
            && body == body2,
{
    reveal_strlit("\n\t");
    reveal_strlit("\n");
    reveal_strlit("\t");
    let e = dsl_entry_text(headword, body);
    assert((headword + "\n"@) =~= e.subrange(0, headword.len() + 1int));
    assert(("\t"@ + body + "\n"@) =~= e.subrange(headword.len() + 1int, e.len() as int));
    if e == dsl_entry_text(headword2, body2) {
        let g = dsl_entry_text(headword2, body2);
        assert forall|j: int| 0 <= j < headword.len() implies headword[j] == headword2[j] by {
            assert(e[j] == headword[j]);
            assert(g[j] == headword2[j]);
        }
        assert(headword =~= headword2);
        assert forall|j: int| 0 <= j < body.len() implies body[j] == body2[j] by {
            assert(e[headword.len() + 2 + j] == body[j]);
            assert(g[headword.len() + 2 + j] == body2[j]);
        }
        assert(body =~= body2);
    }
}

} // verus!
