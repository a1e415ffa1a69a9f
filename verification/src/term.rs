//! Terminal colouring of text.

use vstd::prelude::*;
use vstd::string::StringExecFns;

verus! {

/// `text` wrapped in the ANSI escape for `code` when `on`, else `text` itself.
pub open spec fn painted(on: bool, code: Seq<char>, text: Seq<char>) -> Seq<char> {
    if on {
        "\x1b["@ + code + "m"@ + text + "\x1b[0m"@
    } else {
        text
    }
}

/// Colours `text` with the SGR `code` when colour is `on`.
pub fn paint(on: bool, code: &str, text: &str) -> (r: String)
    ensures
        r@ == painted(on, code@, text@),
{
    if on {
        let mut r = String::new();
        r.append("\x1b[");
        r.append(code);
        r.append("m");
        r.append(text);
        r.append("\x1b[0m");
        r
    } else {
        String::from_str(text)
    }
}


/// Whether `s` holds no escape character, so no ANSI sequence.
pub open spec fn has_no_escape(s: Seq<char>) -> bool {
    forall|i: int| 0 <= i < s.len() ==> s[i] != '\x1b'
}

/// `s` with its ANSI SGR sequences (`ESC [`, parameters, `m`) taken out;
/// `in_code` tells whether `s` starts inside one, after its `ESC [`.
pub open spec fn strip_sgr_from(s: Seq<char>, in_code: bool) -> Seq<char>
    decreases s.len(),
{
    if s.len() == 0 {
        s
    } else if in_code {
        strip_sgr_from(s.drop_first(), s[0] != 'm')
    } else if s[0] == '\x1b' && s.len() >= 2 && s[1] == '[' {
        strip_sgr_from(s.skip(2), true)
    } else {
        seq![s[0]] + strip_sgr_from(s.drop_first(), false)
    }
}

/// `s` with its colour codes taken out.
pub open spec fn strip_sgr(s: Seq<char>) -> Seq<char> {
    strip_sgr_from(s, false)
}

/// Two texts without escapes make one without.
pub proof fn lemma_no_escape_concat(a: Seq<char>, b: Seq<char>)
    requires
        has_no_escape(a),
        has_no_escape(b),
    ensures
        has_no_escape(a + b),
{
    assert forall|i: int| 0 <= i < (a + b).len() implies (a + b)[i] != '\x1b' by {
        if i < a.len() {
            assert((a + b)[i] == a[i]);
        } else {
            assert((a + b)[i] == b[i - a.len()]);
        }
    }
}

/// Text without escapes passes through untouched.
pub proof fn lemma_strip_plain_prefix(a: Seq<char>, b: Seq<char>)
    requires
        has_no_escape(a),
    ensures
        strip_sgr(a + b) == a + strip_sgr(b),
    decreases a.len(),
{
    if a.len() == 0 {
        assert(a + b =~= b);
        assert(a + strip_sgr(b) =~= strip_sgr(b));
    } else {
        let s = a + b;
        assert(s[0] == a[0]);
        assert(s.drop_first() =~= a.drop_first() + b);
        assert(has_no_escape(a.drop_first())) by {
            assert forall|i: int| 0 <= i < a.drop_first().len() implies a.drop_first()[i]
                != '\x1b' by {
                assert(a.drop_first()[i] == a[i + 1]);
            }
        }
        lemma_strip_plain_prefix(a.drop_first(), b);
        assert(seq![a[0]] + (a.drop_first() + strip_sgr(b)) =~= a + strip_sgr(b));
    }
}

/// Text without escapes has nothing to strip.
pub proof fn lemma_strip_plain(a: Seq<char>)
    requires
        has_no_escape(a),
    ensures
        strip_sgr(a) == a,
{
    lemma_strip_plain_prefix(a, Seq::<char>::empty());
    assert(a + Seq::<char>::empty() =~= a);
    assert(strip_sgr(Seq::<char>::empty()) =~= Seq::<char>::empty());
}

/// Inside a sequence, its parameters and the closing `m` are dropped.
pub proof fn lemma_strip_code(c: Seq<char>, rest: Seq<char>)
    requires
        forall|i: int| 0 <= i < c.len() ==> c[i] != 'm',
    ensures
        strip_sgr_from(c + seq!['m'] + rest, true) == strip_sgr(rest),
    decreases c.len(),
{
    let s = c + seq!['m'] + rest;
    if c.len() == 0 {
        assert(s[0] == 'm');
        assert(s.drop_first() =~= rest);
    } else {
        assert(s[0] == c[0]);
        assert(s.drop_first() =~= c.drop_first() + seq!['m'] + rest);
        assert forall|i: int| 0 <= i < c.drop_first().len() implies c.drop_first()[i] != 'm' by {
            assert(c.drop_first()[i] == c[i + 1]);
        }
        lemma_strip_code(c.drop_first(), rest);
    }
}

/// Taking the colour codes out of a coloured text gives the text.
pub proof fn lemma_strip_painted(code: Seq<char>, text: Seq<char>, rest: Seq<char>)
    requires
        forall|i: int| 0 <= i < code.len() ==> code[i] != 'm',
        has_no_escape(text),
    ensures
        strip_sgr(painted(true, code, text) + rest) == text + strip_sgr(rest),
{
    reveal_strlit("\x1b[");
    reveal_strlit("m");
    reveal_strlit("\x1b[0m");
    let tail = "\x1b[0m"@ + rest;
    let x = painted(true, code, text) + rest;
    assert(x =~= "\x1b["@ + (code + seq!['m'] + (text + tail)));
    assert(x[0] == '\x1b' && x[1] == '[');
    assert(x.skip(2) =~= code + seq!['m'] + (text + tail));
    lemma_strip_code(code, text + tail);
    lemma_strip_plain_prefix(text, tail);
    assert(tail[0] == '\x1b' && tail[1] == '[');
    assert(tail.skip(2) =~= seq!['0'] + seq!['m'] + rest);
    lemma_strip_code(seq!['0'], rest);
}

} // verus!
