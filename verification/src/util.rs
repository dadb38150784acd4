use vstd::prelude::*;

verus! {

/// What the character after a backslash stands for: `\n`, `\t` and `\\` are
/// the newline, the tab and the backslash; any other pair is kept verbatim.
pub open spec fn escaped(c: char) -> Seq<char> {
    if c == 'n' {
        seq!['\n']
    } else if c == 't' {
        seq!['\t']
    } else if c == '\\' {
        seq!['\\']
    } else {
        seq!['\\', c]
    }
}

/// Unescape the characters `s`, where `pending` tells whether the character
/// before `s` was an unpaired backslash.
pub open spec fn unescape_from(s: Seq<char>, pending: bool) -> Seq<char>
    decreases s.len(),
{
    if s.len() == 0 {
        if pending { seq!['\\'] } else { Seq::empty() }
    } else if pending {
        escaped(s[0]) + unescape_from(s.drop_first(), false)
    } else if s[0] == '\\' {
        unescape_from(s.drop_first(), true)
    } else {
        seq![s[0]] + unescape_from(s.drop_first(), false)
    }
}

/// Text without a backslash is left as it is.
pub proof fn lemma_unescape_plain(s: Seq<char>)
    requires
        !s.contains('\\'),
    ensures
        unescape_from(s, false) == s,
    decreases s.len(),
{
    if s.len() > 0 {
        assert(!s.drop_first().contains('\\')) by {
            if s.drop_first().contains('\\') {
                let k = choose|k: int| 0 <= k < s.drop_first().len() && s.drop_first()[k] == '\\';
                assert(s[k + 1] == '\\');
            }
        }
        assert(s[0] != '\\') by {
            if s[0] == '\\' {
                assert(s.contains('\\'));
            }
        }
        lemma_unescape_plain(s.drop_first());
        assert(seq![s[0]] + s.drop_first() =~= s);
    }
}

/// Unescaping works piece by piece: text without a backslash is kept, a
/// backslash pair `\n`, `\t` or `\\` becomes the newline, the tab or the
/// backslash, any other pair is kept, and the rest is unescaped the same way.
pub proof fn lemma_unescape_pair(a: Seq<char>, c: char, rest: Seq<char>)
    requires
        !a.contains('\\'),
    ensures
        unescape_from(a + seq!['\\', c] + rest, false) == a + (if c == 'n' {
            seq!['\n']
        } else if c == 't' {
            seq!['\t']
        } else if c == '\\' {
            seq!['\\']
        } else {
            seq!['\\', c]
        }) + unescape_from(rest, false),
    decreases a.len(),
{
    let s = a + seq!['\\', c] + rest;
    if a.len() == 0 {
        assert(s[0] == '\\');
        assert(s.drop_first()[0] == c);
        assert(s.drop_first().drop_first() =~= rest);
        assert(unescape_from(s, false) == unescape_from(s.drop_first(), true));
        assert(unescape_from(s.drop_first(), true) == escaped(c) + unescape_from(rest, false));
        assert(a + escaped(c) + unescape_from(rest, false) =~= escaped(c) + unescape_from(rest, false));
    } else {
        assert(!a.drop_first().contains('\\')) by {
            if a.drop_first().contains('\\') {
                let k = choose|k: int| 0 <= k < a.drop_first().len() && a.drop_first()[k] == '\\';
                assert(a[k + 1] == '\\');
            }
        }
        assert(a[0] != '\\') by {
            if a[0] == '\\' {
                assert(a.contains('\\'));
            }
        }
        lemma_unescape_pair(a.drop_first(), c, rest);
        assert(s[0] == a[0]);
        assert(s.drop_first() =~= a.drop_first() + seq!['\\', c] + rest);
        assert(unescape_from(s, false) == seq![a[0]] + unescape_from(s.drop_first(), false));
        assert(seq![a[0]] + a.drop_first() =~= a);
        let tail = (if c == 'n' {
            seq!['\n']
        } else if c == 't' {
            seq!['\t']
        } else if c == '\\' {
            seq!['\\']
        } else {
            seq!['\\', c]
        }) + unescape_from(rest, false);
        assert(seq![a[0]] + (a.drop_first() + tail) =~= a + tail);
    }
}

/// Appends `c` to the end of `s` (std's `String::push`).
#[verifier::external_body]
fn push_char(s: &mut String, c: char)
    ensures
        final(s)@ == old(s)@.push(c),
{
    s.push(c);
}

/// Turn the escape sequences `\n`, `\t` and `\\` of a command-line separator
/// into the characters they stand for. A backslash before any other
/// character, or at the end, is kept as it is.
pub fn unescape_separator(s: &str) -> (res: String)
    ensures
        res@ == unescape_from(s@, false),
{
    let mut out = String::new();
    let mut pending = false;
    let ghost chars = s@;
    assert(chars.skip(0) =~= chars);
    assert(out@ + unescape_from(chars, false) =~= unescape_from(chars, false));
    for c in it: s.chars()
        invariant
            it.seq() == chars,
            out@ + unescape_from(chars.skip(it.index() as int), pending) == unescape_from(chars, false),
    {
        let ghost rest = chars.skip(it.index() as int);
        proof {
            assert(rest[0] == c);
            assert(rest.drop_first() =~= chars.skip(it.index() + 1));
        }
        if pending {
            if c == 'n' {
                push_char(&mut out, '\n');
            } else if c == 't' {
                push_char(&mut out, '\t');
            } else if c == '\\' {
                push_char(&mut out, '\\');
            } else {
                push_char(&mut out, '\\');
                push_char(&mut out, c);
            }
            pending = false;
        } else if c == '\\' {
            pending = true;
        } else {
            push_char(&mut out, c);
        }
        proof {
            assert(out@ + unescape_from(rest.drop_first(), pending) =~= unescape_from(chars, false));
        }
    }
    if pending {
        push_char(&mut out, '\\');
    }
    out
}

} // verus!
