use vstd::prelude::*;
use vstd::std_specs::iter::IteratorSpec;
use vstd::utf8::{encode_scalar, encode_utf8};

use crate::utf8_text::lemma_encode_concat;

verus! {

/// The text that stands for a character in XML output: the five
/// predefined entities for `<`, `>`, `&`, `'` and `"`, the character
/// itself otherwise.
pub open spec fn escape_char(c: char) -> Seq<char> {
    if c == '<' {
        seq!['&', 'l', 't', ';']
    } else if c == '>' {
        seq!['&', 'g', 't', ';']
    } else if c == '&' {
        seq!['&', 'a', 'm', 'p', ';']
    } else if c == '\'' {
        seq!['&', 'a', 'p', 'o', 's', ';']
    } else if c == '"' {
        seq!['&', 'q', 'u', 'o', 't', ';']
    } else {
        seq![c]
    }
}

/// A text with each character replaced as `escape_char` says.
pub open spec fn escape_seq(s: Seq<char>) -> Seq<char>
    decreases s.len(),
{
    if s.len() == 0 {
        Seq::empty()
    } else {
        escape_seq(s.drop_last()) + escape_char(s.last())
    }
}

/// The number of bytes of the UTF-8 encoding of a text.
pub open spec fn utf8_len(s: Seq<char>) -> nat {
    encode_utf8(s).len()
}

pub proof fn lemma_utf8_len_concat(a: Seq<char>, b: Seq<char>)
    ensures
        utf8_len(a + b) == utf8_len(a) + utf8_len(b),
{
    lemma_encode_concat(a, b);
}

proof fn lemma_utf8_len_one(c: char)
    ensures
        utf8_len(seq![c]) == encode_scalar(c as u32).len(),
{
    assert(seq![c].drop_first() =~= Seq::<char>::empty());
    assert(encode_utf8(Seq::<char>::empty()) =~= Seq::<u8>::empty());
    assert(encode_utf8(seq![c]) == encode_scalar(seq![c][0] as u32) + encode_utf8(
        seq![c].drop_first(),
    ));
    assert(encode_utf8(seq![c]) =~= encode_scalar(c as u32));
}

/// The number of bytes of the UTF-8 encoding of `c`.
fn char_width(c: char) -> (w: usize)
    ensures
        w == utf8_len(seq![c]),
{
    proof {
        lemma_utf8_len_one(c);
    }
    let v = c as u32;
    if v < 0x80 {
        1
    } else if v < 0x800 {
        2
    } else if v < 0x10000 {
        3
    } else {
        4
    }
}

pub proof fn lemma_ascii_len(s: Seq<char>)
    requires
        forall|i: int| 0 <= i < s.len() ==> (s[i] as u32) < 0x80,
    ensures
        utf8_len(s) == s.len(),
    decreases s.len(),
{
    if s.len() > 0 {
        lemma_ascii_len(s.drop_first());
        assert(s =~= seq![s[0]] + s.drop_first());
        lemma_utf8_len_concat(seq![s[0]], s.drop_first());
        lemma_utf8_len_one(s[0]);
    }
}

/// The number of bytes that `escape_char(c)` takes in UTF-8.
fn escaped_char_size(c: char) -> (n: usize)
    ensures
        n == utf8_len(escape_char(c)),
{
    if c == '<' || c == '>' {
        proof {
            lemma_ascii_len(escape_char(c));
        }
        4
    } else if c == '&' {
        proof {
            lemma_ascii_len(escape_char(c));
        }
        5
    } else if c == '\'' || c == '"' {
        proof {
            lemma_ascii_len(escape_char(c));
        }
        6
    } else {
        char_width(c)
    }
}

/// The number of bytes of `s` once escaped for XML output.
pub fn escaped_size(s: &str) -> (r: usize)
    requires
        utf8_len(escape_seq(s@)) <= usize::MAX,
    ensures
        r == utf8_len(escape_seq(s@)),
{
    let mut size: usize = 0;
    let mut it = s.chars();
    let ghost mut k: int = 0;
    loop
        invariant
            0 <= k <= s@.len(),
            it.remaining() == s@.skip(k),
            it.obeys_prophetic_iter_laws(),
            size == utf8_len(escape_seq(s@.take(k))),
            utf8_len(escape_seq(s@)) <= usize::MAX,
        decreases s@.len() - k,
    {
        let ghost prev = it;
        match it.next() {
            Some(c) => {
                proof {
                    assert(prev.remaining().len() > 0);
                    assert(c == s@[k]);
                    assert(s@.take(k + 1).drop_last() =~= s@.take(k));
                    lemma_utf8_len_concat(escape_seq(s@.take(k)), escape_char(c));
                    lemma_escape_prefix(s@, k + 1);
                    lemma_utf8_len_concat(escape_seq(s@.take(k + 1)), escape_seq(s@.skip(k + 1)));
                    assert(s@.skip(k).drop_first() =~= s@.skip(k + 1));
                }
                let n = escaped_char_size(c);
                size = size + n;
                proof {
                    k = k + 1;
                }
            },
            None => {
                proof {
                    assert(s@.skip(k).len() == 0);
                    assert(s@.take(k) =~= s@);
                }
                return size;
            },
        }
    }
}

/// Escaping a text is escaping its start, then its rest.
pub proof fn lemma_escape_prefix(s: Seq<char>, k: int)
    requires
        0 <= k <= s.len(),
    ensures
        escape_seq(s) == escape_seq(s.take(k)) + escape_seq(s.skip(k)),
    decreases s.len() - k,
{
    if k == s.len() {
        assert(s.take(k) =~= s);
        assert(s.skip(k) =~= Seq::<char>::empty());
        assert(escape_seq(s) + Seq::<char>::empty() =~= escape_seq(s));
    } else {
        lemma_escape_prefix(s, k + 1);
        lemma_escape_concat(s.take(k), s.skip(k));
        assert(s.take(k) + s.skip(k) =~= s);
    }
}

/// Escaping distributes over concatenation.
pub proof fn lemma_escape_concat(a: Seq<char>, b: Seq<char>)
    ensures
        escape_seq(a + b) == escape_seq(a) + escape_seq(b),
    decreases b.len(),
{
    if b.len() == 0 {
        assert(a + b =~= a);
        assert(escape_seq(a) + escape_seq(b) =~= escape_seq(a));
    } else {
        lemma_escape_concat(a, b.drop_last());
        assert((a + b).drop_last() =~= a + b.drop_last());
        assert((a + b).last() == b.last());
        assert(escape_seq(a + b) =~= escape_seq(a) + escape_seq(b.drop_last()) + escape_char(
            b.last(),
        ));
    }
}

/// Appends `s` to `output`, escaped for XML output.
pub fn escape(s: &str, output: &mut String)
    ensures
        final(output)@ == old(output)@ + escape_seq(s@),
{
    let mut it = s.chars();
    let ghost mut k: int = 0;
    loop
        invariant
            0 <= k <= s@.len(),
            it.remaining() == s@.skip(k),
            it.obeys_prophetic_iter_laws(),
            output@ == old(output)@ + escape_seq(s@.take(k)),
        decreases s@.len() - k,
    {
        let ghost prev = it;
        match it.next() {
            Some(c) => {
                proof {
                    assert(prev.remaining().len() > 0);
                    assert(c == s@[k]);
                    assert(s@.take(k + 1).drop_last() =~= s@.take(k));
                    assert(s@.skip(k).drop_first() =~= s@.skip(k + 1));
                }
                if c == '<' {
                    output.push('&');
                    output.push('l');
                    output.push('t');
                    output.push(';');
                } else if c == '>' {
                    output.push('&');
                    output.push('g');
                    output.push('t');
                    output.push(';');
                } else if c == '&' {
                    output.push('&');
                    output.push('a');
                    output.push('m');
                    output.push('p');
                    output.push(';');
                } else if c == '\'' {
                    output.push('&');
                    output.push('a');
                    output.push('p');
                    output.push('o');
                    output.push('s');
                    output.push(';');
                } else if c == '"' {
                    output.push('&');
                    output.push('q');
                    output.push('u');
                    output.push('o');
                    output.push('t');
                    output.push(';');
                } else {
                    output.push(c);
                }
                proof {
                    assert(output@ =~= old(output)@ + escape_seq(s@.take(k + 1)));
                    k = k + 1;
                }
            },
            None => {
                proof {
                    assert(s@.skip(k).len() == 0);
                    assert(s@.take(k) =~= s@);
                }
                return ;
            },
        }
    }
}

/// A character that XML markup gives a meaning to.
pub open spec fn is_markup_char(c: char) -> bool {
    c == '<' || c == '>' || c == '&' || c == '\'' || c == '"'
}

/// Law of escaping: escaped text holds no `<`, `>`, `'` or `"`; a text
/// without markup characters is left as it is.
pub proof fn law_escape_safe(s: Seq<char>)
    ensures
        forall|i: int|
            0 <= i < escape_seq(s).len() ==> {
                let c = #[trigger] escape_seq(s)[i];
                c != '<' && c != '>' && c != '\'' && c != '"'
            },
        (forall|i: int| 0 <= i < s.len() ==> !is_markup_char(#[trigger] s[i])) ==> escape_seq(s)
            == s,
    decreases s.len(),
{
    if s.len() > 0 {
        law_escape_safe(s.drop_last());
        let a = escape_seq(s.drop_last());
        let b = escape_char(s.last());
        assert(escape_seq(s) == a + b);
        assert forall|i: int| 0 <= i < (a + b).len() implies {
            let c = #[trigger] (a + b)[i];
            c != '<' && c != '>' && c != '\'' && c != '"'
        } by {
            if i < a.len() {
                assert((a + b)[i] == a[i]);
            } else {
                assert((a + b)[i] == b[i - a.len()]);
            }
        }
        if forall|i: int| 0 <= i < s.len() ==> !is_markup_char(#[trigger] s[i]) {
            assert(!is_markup_char(s[s.len() - 1]));
            assert forall|i: int| 0 <= i < s.drop_last().len() implies !is_markup_char(
                #[trigger] s.drop_last()[i],
            ) by {
                assert(s.drop_last()[i] == s[i]);
            }
            assert(s.drop_last() + seq![s.last()] =~= s);
        }
    }
}

/// The text that an XML reader takes `s` for: the five predefined
/// entities stand for their characters, everything else for itself.
pub open spec fn unescape(s: Seq<char>) -> Seq<char>
    decreases s.len(),
{
    if s.len() == 0 {
        Seq::empty()
    } else if s.len() >= 4 && s.take(4) == seq!['&', 'l', 't', ';'] {
        seq!['<'] + unescape(s.skip(4))
    } else if s.len() >= 4 && s.take(4) == seq!['&', 'g', 't', ';'] {
        seq!['>'] + unescape(s.skip(4))
    } else if s.len() >= 5 && s.take(5) == seq!['&', 'a', 'm', 'p', ';'] {
        seq!['&'] + unescape(s.skip(5))
    } else if s.len() >= 6 && s.take(6) == seq!['&', 'a', 'p', 'o', 's', ';'] {
        seq!['\''] + unescape(s.skip(6))
    } else if s.len() >= 6 && s.take(6) == seq!['&', 'q', 'u', 'o', 't', ';'] {
        seq!['"'] + unescape(s.skip(6))
    } else {
        seq![s[0]] + unescape(s.skip(1))
    }
}

/// Text without `&` reads as itself.
pub proof fn lemma_unescape_plain(p: Seq<char>, t: Seq<char>)
    requires
        forall|i: int| 0 <= i < p.len() ==> p[i] != '&',
    ensures
        unescape(p + t) == p + unescape(t),
    decreases p.len(),
{
    if p.len() > 0 {
        let s = p + t;
        assert(s[0] == p[0] && p[0] != '&');
        assert(s.len() >= 4 ==> s.take(4)[0] != '&');
        assert(s.len() >= 5 ==> s.take(5)[0] != '&');
        assert(s.len() >= 6 ==> s.take(6)[0] != '&');
        assert(s.skip(1) =~= p.skip(1) + t);
        lemma_unescape_plain(p.skip(1), t);
        assert(seq![p[0]] + p.skip(1) =~= p);
    }
}

/// An escaped character reads as the character.
pub proof fn lemma_unescape_char(c: char, t: Seq<char>)
    ensures
        unescape(escape_char(c) + t) == seq![c] + unescape(t),
{
    let e = escape_char(c);
    let s = e + t;
    assert(s.take(e.len() as int) =~= e);
    assert(s.skip(e.len() as int) =~= t);
    if c == '<' {
    } else if c == '>' {
        assert(s.take(4)[1] == 'g');
    } else if c == '&' {
        assert(s.take(4)[1] == 'a');
        assert(s.take(5) =~= e);
    } else if c == '\'' {
        assert(s.take(4)[1] == 'a');
        assert(s.take(5)[2] == 'p');
        assert(s.take(6) =~= e);
    } else if c == '"' {
        assert(s.take(4)[1] == 'q');
        assert(s.take(5)[1] == 'q');
        assert(s.take(6) =~= e);
    } else {
        assert(s[0] == c && c != '&');
        assert(s.len() >= 4 ==> s.take(4)[0] != '&');
        assert(s.len() >= 5 ==> s.take(5)[0] != '&');
        assert(s.len() >= 6 ==> s.take(6)[0] != '&');
        assert(s.skip(1) =~= t);
    }
}

/// Law of escaping: escaped text reads back as the text it was made from,
/// whatever follows it.
pub proof fn law_unescape_escape(v: Seq<char>, t: Seq<char>)
    ensures
        unescape(escape_seq(v) + t) == v + unescape(t),
    decreases v.len(),
{
    if v.len() > 0 {
        let rest = v.skip(1);
        assert(seq![v[0]] + rest =~= v);
        lemma_escape_concat(seq![v[0]], rest);
        let one = seq![v[0]];
        assert(one.drop_last() =~= Seq::<char>::empty());
        assert(escape_seq(one.drop_last()) =~= Seq::<char>::empty());
        assert(one.last() == v[0]);
        assert(escape_seq(one) == escape_seq(one.drop_last()) + escape_char(one.last()));
        assert(escape_seq(one) =~= escape_char(v[0]));
        assert(escape_seq(v) + t =~= escape_char(v[0]) + (escape_seq(rest) + t));
        lemma_unescape_char(v[0], escape_seq(rest) + t);
        law_unescape_escape(rest, t);
    } else {
        assert(escape_seq(v) + t =~= t);
        assert(v + unescape(t) =~= unescape(t));
    }
}

} // verus!
