//! Text helpers of the SVG renderer: the series color palette, the
//! escaping of text placed in SVG markup, and the base64 payload of an
//! SVG image.
use vstd::prelude::*;
use vstd::string::StringSliceAdditionalSpecFns;

verus! {

/// The ten categorical colors (Tableau-10), in order.
pub open spec fn palette_color(k: nat) -> Seq<char> {
    if k == 0 {
        "#4e79a7"@
    } else if k == 1 {
        "#f28e2b"@
    } else if k == 2 {
        "#e15759"@
    } else if k == 3 {
        "#76b7b2"@
    } else if k == 4 {
        "#59a14f"@
    } else if k == 5 {
        "#edc948"@
    } else if k == 6 {
        "#b07aa1"@
    } else if k == 7 {
        "#ff9da7"@
    } else if k == 8 {
        "#9c755f"@
    } else {
        "#bab0ac"@
    }
}

/// Distinct categorical colors, cycled by index: series `i` gets color `i mod 10`.
pub fn palette(i: usize) -> (c: &'static str)
    ensures
        c@ == palette_color((i % 10) as nat),
{
    match i % 10 {
        0 => "#4e79a7",
        1 => "#f28e2b",
        2 => "#e15759",
        3 => "#76b7b2",
        4 => "#59a14f",
        5 => "#edc948",
        6 => "#b07aa1",
        7 => "#ff9da7",
        8 => "#9c755f",
        _ => "#bab0ac",
    }
}

/// The palette cycles with period 10: series `i` and `i + 10` share a color.
pub proof fn law_palette_cycles(i: nat)
    ensures
        palette_color((i + 10) % 10) == palette_color(i % 10),
{
}

/// The ten palette colors are distinct.
pub proof fn law_palette_distinct(a: nat, b: nat)
    requires
        a < 10,
        b < 10,
        a != b,
    ensures
        palette_color(a) != palette_color(b),
{
    reveal_strlit("#4e79a7");
    reveal_strlit("#f28e2b");
    reveal_strlit("#e15759");
    reveal_strlit("#76b7b2");
    reveal_strlit("#59a14f");
    reveal_strlit("#edc948");
    reveal_strlit("#b07aa1");
    reveal_strlit("#ff9da7");
    reveal_strlit("#9c755f");
    reveal_strlit("#bab0ac");
    assert(palette_color(0)[1] == '4' && palette_color(0)[2] == 'e');
    assert(palette_color(1)[1] == 'f' && palette_color(1)[2] == '2');
    assert(palette_color(2)[1] == 'e' && palette_color(2)[2] == '1');
    assert(palette_color(3)[1] == '7' && palette_color(3)[2] == '6');
    assert(palette_color(4)[1] == '5' && palette_color(4)[2] == '9');
    assert(palette_color(5)[1] == 'e' && palette_color(5)[2] == 'd');
    assert(palette_color(6)[1] == 'b' && palette_color(6)[2] == '0');
    assert(palette_color(7)[1] == 'f' && palette_color(7)[2] == 'f');
    assert(palette_color(8)[1] == '9' && palette_color(8)[2] == 'c');
    assert(palette_color(9)[1] == 'b' && palette_color(9)[2] == 'a');
}

/// The markup text of one character: `&`, `<`, `>` and `"` become entity
/// references, every other character stands for itself.
pub open spec fn escape_char(c: char) -> Seq<char> {
    if c == '&' {
        "&amp;"@
    } else if c == '<' {
        "&lt;"@
    } else if c == '>' {
        "&gt;"@
    } else if c == '"' {
        "&quot;"@
    } else {
        seq![c]
    }
}

/// The markup text of a string: each character escaped in turn.
pub open spec fn escape_text(s: Seq<char>) -> Seq<char>
    decreases s.len(),
{
    if s.len() == 0 {
        Seq::empty()
    } else {
        escape_text(s.drop_last()) + escape_char(s.last())
    }
}

/// The markup text of one character holds no `<`, `>` or `"`.
proof fn lemma_escaped_char_has_no_markup(c: char)
    ensures
        forall|j: int|
            0 <= j < escape_char(c).len() ==> {
                let e = #[trigger] escape_char(c)[j];
                e != '<' && e != '>' && e != '"'
            },
{
    reveal_strlit("&amp;");
    reveal_strlit("&lt;");
    reveal_strlit("&gt;");
    reveal_strlit("&quot;");
}

/// Escaped text holds no `<`, `>` or `"`: placed in markup it can neither
/// open nor close a tag, nor end an attribute value.
pub proof fn law_escaped_text_has_no_markup(s: Seq<char>)
    ensures
        forall|i: int|
            0 <= i < escape_text(s).len() ==> {
                let e = #[trigger] escape_text(s)[i];
                e != '<' && e != '>' && e != '"'
            },
    decreases s.len(),
{
    if s.len() > 0 {
        let a = escape_text(s.drop_last());
        let b = escape_char(s.last());
        law_escaped_text_has_no_markup(s.drop_last());
        lemma_escaped_char_has_no_markup(s.last());
        assert forall|i: int| 0 <= i < (a + b).len() implies {
            let e = #[trigger] (a + b)[i];
            e != '<' && e != '>' && e != '"'
        } by {
            if i < a.len() {
                assert((a + b)[i] == a[i]);
            } else {
                assert((a + b)[i] == b[i - a.len()]);
            }
        }
    }
}

/// Text without `&`, `<`, `>` and `"` is left as it is.
pub proof fn law_escape_keeps_plain_text(s: Seq<char>)
    requires
        forall|i: int|
            0 <= i < s.len() ==> {
                let c = #[trigger] s[i];
                c != '&' && c != '<' && c != '>' && c != '"'
            },
    ensures
        escape_text(s) == s,
    decreases s.len(),
{
    if s.len() > 0 {
        law_escape_keeps_plain_text(s.drop_last());
        assert(s.last() == s[s.len() - 1]);
        assert(s.drop_last() + seq![s.last()] =~= s);
    }
}

/// Escaping a concatenation escapes each part.
proof fn lemma_escape_concat(a: Seq<char>, b: Seq<char>)
    ensures
        escape_text(a + b) == escape_text(a) + escape_text(b),
    decreases b.len(),
{
    if b.len() == 0 {
        assert(a + b =~= a);
        assert(escape_text(a) + escape_text(b) =~= escape_text(a));
    } else {
        lemma_escape_concat(a, b.drop_last());
        assert((a + b).drop_last() =~= a + b.drop_last());
        assert((a + b).last() == b.last());
        assert(escape_text(a) + escape_text(b.drop_last()) + escape_char(b.last()) =~= escape_text(
            a,
        ) + (escape_text(b.drop_last()) + escape_char(b.last())));
    }
}

/// Reads markup text back, left to right: each of `&amp;`, `&lt;`, `&gt;` and
/// `&quot;` becomes the character it stands for, every other character stands
/// for itself.
pub open spec fn unescape_text(t: Seq<char>) -> Seq<char>
    decreases t.len(),
{
    if t.len() == 0 {
        Seq::empty()
    } else if t.len() >= 5 && t.take(5) == "&amp;"@ {
        seq!['&'] + unescape_text(t.skip(5))
    } else if t.len() >= 4 && t.take(4) == "&lt;"@ {
        seq!['<'] + unescape_text(t.skip(4))
    } else if t.len() >= 4 && t.take(4) == "&gt;"@ {
        seq!['>'] + unescape_text(t.skip(4))
    } else if t.len() >= 6 && t.take(6) == "&quot;"@ {
        seq!['"'] + unescape_text(t.skip(6))
    } else {
        seq![t[0]] + unescape_text(t.skip(1))
    }
}

/// Reading back the markup of one character, followed by any text, gives the
/// character followed by the reading of that text.
proof fn lemma_unescape_char(c: char, u: Seq<char>)
    ensures
        unescape_text(escape_char(c) + u) == seq![c] + unescape_text(u),
{
    reveal_strlit("&amp;");
    reveal_strlit("&lt;");
    reveal_strlit("&gt;");
    reveal_strlit("&quot;");
    let e = escape_char(c);
    let t = e + u;
    assert(t.take(e.len() as int) =~= e);
    assert(t.skip(e.len() as int) =~= u);
    if c == '&' {
    } else if c == '<' {
        assert(t[1] == 'l');
        if t.len() >= 5 {
            assert(t.take(5)[1] != "&amp;"@[1]);
        }
    } else if c == '>' {
        assert(t[1] == 'g');
        if t.len() >= 5 {
            assert(t.take(5)[1] != "&amp;"@[1]);
        }
        assert(t.take(4)[1] != "&lt;"@[1]);
    } else if c == '"' {
        assert(t[1] == 'q');
        assert(t.take(5)[1] != "&amp;"@[1]);
        assert(t.take(4)[1] != "&lt;"@[1]);
        assert(t.take(4)[1] != "&gt;"@[1]);
    } else {
        assert(t[0] == c);
        if t.len() >= 5 {
            assert(t.take(5)[0] != "&amp;"@[0]);
        }
        if t.len() >= 4 {
            assert(t.take(4)[0] != "&lt;"@[0]);
            assert(t.take(4)[0] != "&gt;"@[0]);
        }
        if t.len() >= 6 {
            assert(t.take(6)[0] != "&quot;"@[0]);
        }
    }
}

/// Escaping loses nothing: reading the markup back gives the text again.
pub proof fn law_unescape_undoes_escape(s: Seq<char>)
    ensures
        unescape_text(escape_text(s)) == s,
    decreases s.len(),
{
    if s.len() == 0 {
        assert(escape_text(s) =~= Seq::<char>::empty());
    } else {
        let (c, rest) = (s[0], s.skip(1));
        assert(s =~= seq![c] + rest);
        lemma_escape_concat(seq![c], rest);
        assert(seq![c].drop_last() =~= Seq::<char>::empty());
        assert(seq![c].last() == c);
        assert(escape_text(Seq::<char>::empty()) == Seq::<char>::empty());
        assert(escape_text(seq![c]) == escape_text(Seq::<char>::empty()) + escape_char(c));
        assert(escape_text(seq![c]) =~= escape_char(c));
        lemma_unescape_char(c, escape_text(rest));
        law_unescape_undoes_escape(rest);
    }
}

/// Position `i` of `t` begins one of the entities `&amp;`, `&lt;`, `&gt;`,
/// `&quot;`.
pub open spec fn entity_at(t: Seq<char>, i: int) -> bool {
    ||| i + 5 <= t.len() && t.subrange(i, i + 5) == "&amp;"@
    ||| i + 4 <= t.len() && t.subrange(i, i + 4) == "&lt;"@
    ||| i + 4 <= t.len() && t.subrange(i, i + 4) == "&gt;"@
    ||| i + 6 <= t.len() && t.subrange(i, i + 6) == "&quot;"@
}

/// In escaped text every `&` begins an entity.
pub proof fn law_escaped_ampersand_begins_entity(s: Seq<char>)
    ensures
        forall|i: int|
            0 <= i < escape_text(s).len() && #[trigger] escape_text(s)[i] == '&' ==> entity_at(
                escape_text(s),
                i,
            ),
    decreases s.len(),
{
    reveal_strlit("&amp;");
    reveal_strlit("&lt;");
    reveal_strlit("&gt;");
    reveal_strlit("&quot;");
    if s.len() > 0 {
        let a = escape_text(s.drop_last());
        let c = s.last();
        let b = escape_char(c);
        let t = a + b;
        law_escaped_ampersand_begins_entity(s.drop_last());
        assert forall|i: int| 0 <= i < t.len() && #[trigger] t[i] == '&' implies entity_at(
            t,
            i,
        ) by {
            if i < a.len() {
                assert(a[i] == '&');
                assert(entity_at(a, i));
                if i + 5 <= a.len() {
                    assert(t.subrange(i, i + 5) =~= a.subrange(i, i + 5));
                }
                if i + 4 <= a.len() {
                    assert(t.subrange(i, i + 4) =~= a.subrange(i, i + 4));
                }
                if i + 6 <= a.len() {
                    assert(t.subrange(i, i + 6) =~= a.subrange(i, i + 6));
                }
            } else {
                let j = i - a.len();
                assert(b[j] == '&');
                assert(j == 0);
                assert(t.subrange(i, i + b.len()) =~= b);
            }
        }
    }
}

/// Appends a character to a string (`String::push`).
#[verifier::external_body]
fn push_char(s: &mut String, c: char)
    ensures
        final(s)@ == old(s)@.push(c),
{
    s.push(c);
}

/// Escapes `&`, `<`, `>` and `"` so that `s` can stand as SVG text or an
/// attribute value.
pub fn escape(s: &str) -> (out: String)
    ensures
        out@ == escape_text(s@),
{
    let mut out = String::new();
    let n = s.unicode_len();
    let mut i: usize = 0;
    while i < n
        invariant
            i <= n,
            n == s@.len(),
            out@ == escape_text(s@.take(i as int)),
        decreases n - i,
    {
        let c = s.get_char(i);
        if c == '&' {
            out.append("&amp;");
        } else if c == '<' {
            out.append("&lt;");
        } else if c == '>' {
            out.append("&gt;");
        } else if c == '"' {
            out.append("&quot;");
        } else {
            push_char(&mut out, c);
        }
        assert(s@.take(i + 1).drop_last() =~= s@.take(i as int));
        i = i + 1;
    }
    assert(s@.take(n as int) =~= s@);
    out
}

/// The character of a six-bit value in the standard base64 alphabet:
/// `A`–`Z`, then `a`–`z`, then `0`–`9`, then `+` and `/`.
pub open spec fn base64_digit(v: int) -> char {
    if v < 26 {
        (65 + v) as char
    } else if v < 52 {
        (97 + (v - 26)) as char
    } else if v < 62 {
        (48 + (v - 52)) as char
    } else if v == 62 {
        '+'
    } else {
        '/'
    }
}

/// Base64 text of a byte string (RFC 4648, padded): each group of three
/// bytes becomes four digits of six bits each, high bits first; a last group
/// of one or two bytes is filled with zero bits and padded with `=` to four.
pub open spec fn base64_text(b: Seq<u8>) -> Seq<char>
    decreases b.len(),
{
    if b.len() == 0 {
        Seq::empty()
    } else if b.len() == 1 {
        seq![
            base64_digit((b[0] / 4) as int),
            base64_digit((b[0] % 4) * 16),
            '=',
            '=',
        ]
    } else if b.len() == 2 {
        seq![
            base64_digit((b[0] / 4) as int),
            base64_digit((b[0] % 4) * 16 + b[1] / 16),
            base64_digit((b[1] % 16) * 4),
            '=',
        ]
    } else {
        seq![
            base64_digit((b[0] / 4) as int),
            base64_digit((b[0] % 4) * 16 + b[1] / 16),
            base64_digit((b[1] % 16) * 4 + b[2] / 64),
            base64_digit((b[2] % 64) as int),
        ] + base64_text(b.skip(3))
    }
}

/// Base64 text of `bytes` by the `STANDARD` engine of the `base64` crate
/// (`Engine::encode`): the RFC 4648 alphabet, padded with `=`, as
/// `base64_text` states. The engine panics where the length of the text
/// would not fit in `usize`; the `requires` leaves those inputs out.
#[verifier::external_body]
fn encode_base64(bytes: &[u8]) -> (text: String)
    requires
        (bytes@.len() + 2) / 3 * 4 <= usize::MAX,
    ensures
        text@ == base64_text(bytes@),
{
    base64::Engine::encode(&base64::engine::general_purpose::STANDARD, bytes)
}

/// The payload of the `image/svg+xml` content item that carries a plot: the
/// UTF-8 bytes of the SVG document in base64.
pub fn svg_image_data(svg: &str) -> (data: String)
    requires
        (svg.spec_bytes().len() + 2) / 3 * 4 <= usize::MAX,
    ensures
        data@ == base64_text(svg.spec_bytes()),
{
    encode_base64(svg.as_bytes())
}

} // verus!
