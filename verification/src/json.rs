//! The JSON renderer: a pretty-printed document mirroring the tree,
//! omitting absent or empty optional fields.

use vstd::prelude::*;
use crate::node::{node_view, GitState, Kind, Node, NodeView};
use crate::strutil::{dec_str, digit_char, lemma_concat_empty, u64_to_string};

verus! {

/// The lowercase hexadecimal digit character for `d` (meaningful for
/// `d < 16`).
pub open spec fn hex_char(d: nat) -> char {
    if d < 10 {
        crate::strutil::digit_char(d)
    } else if d == 10 {
        'a'
    } else if d == 11 {
        'b'
    } else if d == 12 {
        'c'
    } else if d == 13 {
        'd'
    } else if d == 14 {
        'e'
    } else {
        'f'
    }
}

/// What one character contributes to a JSON string literal: itself,
/// or an escape sequence for quotes, backslashes and control
/// characters.
pub open spec fn esc_char(c: char) -> Seq<char> {
    if c == '"' {
        "\\\""@
    } else if c == '\\' {
        "\\\\"@
    } else if c == '\u{8}' {
        "\\b"@
    } else if c == '\u{c}' {
        "\\f"@
    } else if c == '\n' {
        "\\n"@
    } else if c == '\r' {
        "\\r"@
    } else if c == '\t' {
        "\\t"@
    } else if (c as u32) < 0x20 {
        "\\u00"@ + seq![hex_char((c as u32 / 16) as nat), hex_char((c as u32 % 16) as nat)]
    } else {
        seq![c]
    }
}

/// A whole string escaped for a JSON string literal.
pub open spec fn json_escaped(s: Seq<char>) -> Seq<char>
    decreases s.len(),
{
    if s.len() == 0 {
        Seq::<char>::empty()
    } else {
        json_escaped(s.drop_last()) + esc_char(s.last())
    }
}

/// A character that passes through escaping unchanged.
pub open spec fn is_safe(c: char) -> bool {
    c != '"' && c != '\\' && (c as u32) >= 0x20
}

/// Escaping distributes over a trailing run of safe characters.
proof fn lemma_escaped_safe_append(q: Seq<char>, r: Seq<char>)
    requires
        forall|j: int| 0 <= j < r.len() ==> is_safe(#[trigger] r[j]),
    ensures
        json_escaped(q + r) == json_escaped(q) + r,
    decreases r.len(),
{
    if r.len() == 0 {
        assert(q + r =~= q);
        lemma_concat_empty(json_escaped(q));
    } else {
        lemma_escaped_safe_append(q, r.drop_last());
        assert((q + r).drop_last() =~= q + r.drop_last());
        assert((q + r).last() == r.last());
        assert(esc_char(r.last()) == seq![r.last()]);
        assert(json_escaped(q) + r.drop_last() + seq![r.last()] =~= json_escaped(q) + r);
    }
}

/// The numeric value of a lowercase hexadecimal digit character
/// (meaningful on digits).
pub open spec fn hex_val(c: char) -> nat {
    if c == '0' {
        0
    } else if c == '1' {
        1
    } else if c == '2' {
        2
    } else if c == '3' {
        3
    } else if c == '4' {
        4
    } else if c == '5' {
        5
    } else if c == '6' {
        6
    } else if c == '7' {
        7
    } else if c == '8' {
        8
    } else if c == '9' {
        9
    } else if c == 'a' {
        10
    } else if c == 'b' {
        11
    } else if c == 'c' {
        12
    } else if c == 'd' {
        13
    } else if c == 'e' {
        14
    } else {
        15
    }
}

/// Whether a character is a lowercase hexadecimal digit.
pub open spec fn is_hex_digit(c: char) -> bool {
    ||| c == '0'
    ||| c == '1'
    ||| c == '2'
    ||| c == '3'
    ||| c == '4'
    ||| c == '5'
    ||| c == '6'
    ||| c == '7'
    ||| c == '8'
    ||| c == '9'
    ||| c == 'a'
    ||| c == 'b'
    ||| c == 'c'
    ||| c == 'd'
    ||| c == 'e'
    ||| c == 'f'
}

/// The character a two-character escape stands for, keyed by its
/// second character.
pub open spec fn short_unescape(c: char) -> Option<char> {
    if c == '"' {
        Some('"')
    } else if c == '\\' {
        Some('\\')
    } else if c == 'b' {
        Some('\u{8}')
    } else if c == 'f' {
        Some('\u{c}')
    } else if c == 'n' {
        Some('\n')
    } else if c == 'r' {
        Some('\r')
    } else if c == 't' {
        Some('\t')
    } else {
        None
    }
}

/// Decodes a JSON-escaped string back to its characters; `None` on
/// text that no escaping produces.
pub open spec fn json_unescaped(t: Seq<char>) -> Option<Seq<char>>
    decreases t.len(),
{
    if t.len() == 0 {
        Some(Seq::<char>::empty())
    } else if t[0] == '\\' {
        if t.len() >= 2 && short_unescape(t[1]) is Some {
            match json_unescaped(t.skip(2)) {
                Some(r) => Some(seq![short_unescape(t[1])->0] + r),
                None => None,
            }
        } else if t.len() >= 6 && t[1] == 'u' && t[2] == '0' && t[3] == '0' && is_hex_digit(t[4])
            && is_hex_digit(t[5]) {
            match json_unescaped(t.skip(6)) {
                Some(r) => Some(
                    seq![(((hex_val(t[4]) * 16 + hex_val(t[5])) as u32) as char)] + r,
                ),
                None => None,
            }
        } else {
            None
        }
    } else {
        match json_unescaped(t.skip(1)) {
            Some(r) => Some(seq![t[0]] + r),
            None => None,
        }
    }
}

/// Escaping unfolded from the front instead of the back.
proof fn lemma_escaped_cons(s: Seq<char>)
    requires
        s.len() > 0,
    ensures
        json_escaped(s) == esc_char(s[0]) + json_escaped(s.drop_first()),
    decreases s.len(),
{
    if s.len() == 1 {
        assert(s.drop_last() =~= Seq::<char>::empty());
        assert(s.drop_first() =~= Seq::<char>::empty());
        assert(s.last() == s[0]);
        assert(json_escaped(s.drop_last()) + esc_char(s.last()) =~= esc_char(s[0]) + json_escaped(
            s.drop_first(),
        ));
    } else {
        let dl = s.drop_last();
        lemma_escaped_cons(dl);
        assert(s.drop_first().drop_last() =~= dl.drop_first());
        assert(s.drop_first().last() == s.last());
        lemma_assoc(esc_char(s[0]), json_escaped(dl.drop_first()), esc_char(s.last()));
    }
}

/// Decoding inverts escaping: the escaped text of any string decodes
/// back to exactly that string, so the emitted document pins each
/// node's name.
pub proof fn lemma_json_escape_round_trip(s: Seq<char>)
    ensures
        json_unescaped(json_escaped(s)) == Some(s),
    decreases s.len(),
{
    reveal_strlit("\\\"");
    reveal_strlit("\\\\");
    reveal_strlit("\\b");
    reveal_strlit("\\f");
    reveal_strlit("\\n");
    reveal_strlit("\\r");
    reveal_strlit("\\t");
    reveal_strlit("\\u00");
    if s.len() == 0 {
        assert(json_unescaped(json_escaped(s)) == Some(Seq::<char>::empty()));
        assert(Seq::<char>::empty() =~= s);
    } else {
        lemma_escaped_cons(s);
        lemma_json_escape_round_trip(s.drop_first());
        let c = s[0];
        let u = esc_char(c);
        let e = json_escaped(s.drop_first());
        let t = json_escaped(s);
        assert(t == u + e);
        if is_safe(c) {
            assert(u == seq![c]);
            assert(t[0] == c);
            assert(t.skip(1) =~= e);
            assert(seq![c] + s.drop_first() =~= s);
        } else if c == '"' || c == '\\' || c == '\u{8}' || c == '\u{c}' || c == '\n' || c == '\r'
            || c == '\t' {
            assert(u.len() == 2 && u[0] == '\\' && short_unescape(u[1]) == Some(c));
            assert(t[0] == '\\' && t.len() >= 2 && t[1] == u[1]);
            assert(t.skip(2) =~= e);
            assert(seq![c] + s.drop_first() =~= s);
        } else {
            let code = c as u32;
            let hi = (code / 16) as nat;
            let lo = (code % 16) as nat;
            assert(u == "\\u00"@ + seq![hex_char(hi), hex_char(lo)]);
            assert(u.len() == 6);
            assert(t[0] == '\\' && t[1] == 'u' && t[2] == '0' && t[3] == '0');
            assert(t[4] == hex_char(hi) && t[5] == hex_char(lo));
            assert(code < 0x20);
            assert(hi < 16 && lo < 16);
            assert(is_hex_digit(hex_char(hi)) && is_hex_digit(hex_char(lo)));
            assert(hex_val(hex_char(hi)) == hi && hex_val(hex_char(lo)) == lo);
            assert(hi * 16 + lo == code);
            vstd::utf8::char_u32_cast(c, code);
            assert((((hex_val(t[4]) * 16 + hex_val(t[5])) as u32) as char) == c);
            assert(short_unescape(t[1]) is None);
            assert(t.skip(6) =~= e);
            assert(seq![c] + s.drop_first() =~= s);
        }
    }
}

/// Splits a JSON string body at its closing quote: the raw escaped
/// text before it, and the remainder after it. Backslashes always
/// consume the following character.
pub open spec fn scan_string(t: Seq<char>) -> Option<(Seq<char>, Seq<char>)>
    decreases t.len(),
{
    if t.len() == 0 {
        None
    } else if t[0] == '"' {
        Some((Seq::<char>::empty(), t.skip(1)))
    } else if t[0] == '\\' {
        if t.len() >= 2 {
            match scan_string(t.skip(2)) {
                Some((raw, rest)) => Some((t.take(2) + raw, rest)),
                None => None,
            }
        } else {
            None
        }
    } else {
        match scan_string(t.skip(1)) {
            Some((raw, rest)) => Some((seq![t[0]] + raw, rest)),
            None => None,
        }
    }
}

/// Scanning text that holds neither quotes nor backslashes stops at
/// the terminating quote.
proof fn lemma_scan_plain(d: Seq<char>, rest: Seq<char>)
    requires
        forall|i: int| 0 <= i < d.len() ==> #[trigger] d[i] != '"' && d[i] != '\\',
    ensures
        scan_string(d + seq!['"'] + rest) == Some((d, rest)),
    decreases d.len(),
{
    let t = d + seq!['"'] + rest;
    if d.len() == 0 {
        assert(t[0] == '"');
        assert(t.skip(1) =~= rest);
        assert(Seq::<char>::empty() =~= d);
    } else {
        lemma_scan_plain(d.drop_first(), rest);
        assert(t[0] == d[0]);
        assert(t.skip(1) =~= d.drop_first() + seq!['"'] + rest);
        assert(seq![d[0]] + d.drop_first() =~= d);
    }
}

/// Scanning the escaped text of any string stops exactly at the
/// terminating quote and hands the escaped text back whole.
proof fn lemma_scan_escaped(s: Seq<char>, rest: Seq<char>)
    ensures
        scan_string(json_escaped(s) + seq!['"'] + rest) == Some((json_escaped(s), rest)),
    decreases s.len(),
{
    reveal_strlit("\\\"");
    reveal_strlit("\\\\");
    reveal_strlit("\\b");
    reveal_strlit("\\f");
    reveal_strlit("\\n");
    reveal_strlit("\\r");
    reveal_strlit("\\t");
    reveal_strlit("\\u00");
    let e = json_escaped(s);
    let t = e + seq!['"'] + rest;
    if s.len() == 0 {
        assert(t =~= Seq::<char>::empty() + seq!['"'] + rest);
        assert(t[0] == '"');
        assert(t.skip(1) =~= rest);
        assert(Seq::<char>::empty() =~= e);
    } else {
        lemma_escaped_cons(s);
        lemma_scan_escaped(s.drop_first(), rest);
        let c = s[0];
        let u = esc_char(c);
        let e2 = json_escaped(s.drop_first());
        let t2 = e2 + seq!['"'] + rest;
        assert(t =~= u + t2);
        if is_safe(c) {
            assert(u == seq![c]);
            assert(t[0] == c && c != '"' && c != '\\');
            assert(t.skip(1) =~= t2);
            assert(seq![c] + e2 =~= e);
        } else if c == '"' || c == '\\' || c == '\u{8}' || c == '\u{c}' || c == '\n' || c == '\r'
            || c == '\t' {
            assert(u.len() == 2 && u[0] == '\\');
            assert(t[0] == '\\' && t.len() >= 2);
            assert(t.skip(2) =~= t2);
            assert(t.take(2) =~= u);
            assert(u + e2 =~= e);
        } else {
            let code = c as u32;
            let h1 = hex_char((code / 16) as nat);
            let h2 = hex_char((code % 16) as nat);
            assert(u == "\\u00"@ + seq![h1, h2]);
            assert(u.len() == 6);
            assert(t[0] == '\\' && t[1] == 'u' && t[2] == '0' && t[3] == '0' && t[4] == h1 && t[5]
                == h2);
            assert(((code / 16) as nat) < 16 && ((code % 16) as nat) < 16);
            assert(h1 != '"' && h1 != '\\');
            assert(h2 != '"' && h2 != '\\');
            // the scanner eats the backslash pair, then four plain
            // characters
            let t4 = seq![t[2], t[3], t[4], t[5]] + t2;
            assert(t.skip(2) =~= t4);
            assert(t4.skip(1) =~= seq![t[3], t[4], t[5]] + t2);
            assert(t4.skip(1).skip(1) =~= seq![t[4], t[5]] + t2);
            assert(t4.skip(1).skip(1).skip(1) =~= seq![t[5]] + t2);
            assert(t4.skip(1).skip(1).skip(1).skip(1) =~= t2);
            assert(scan_string(t4.skip(1).skip(1).skip(1)) == Some(
                (seq![t[5]] + e2, rest),
            ));
            assert(scan_string(t4.skip(1).skip(1)) == Some((seq![t[4]] + (seq![t[5]] + e2), rest)));
            assert(scan_string(t4.skip(1)) == Some(
                (seq![t[3]] + (seq![t[4]] + (seq![t[5]] + e2)), rest),
            ));
            assert(scan_string(t4) == Some(
                (seq![t[2]] + (seq![t[3]] + (seq![t[4]] + (seq![t[5]] + e2))), rest),
            ));
            assert(t.take(2) + (seq![t[2]] + (seq![t[3]] + (seq![t[4]] + (seq![t[5]] + e2)))) =~= e);
        }
    }
}

/// Whether a character is a decimal digit.
pub open spec fn is_dec_digit(c: char) -> bool {
    ||| c == '0'
    ||| c == '1'
    ||| c == '2'
    ||| c == '3'
    ||| c == '4'
    ||| c == '5'
    ||| c == '6'
    ||| c == '7'
    ||| c == '8'
    ||| c == '9'
}

/// Splits off the maximal run of leading decimal digits.
pub open spec fn scan_digits(t: Seq<char>) -> (Seq<char>, Seq<char>)
    decreases t.len(),
{
    if t.len() == 0 || !is_dec_digit(t[0]) {
        (Seq::<char>::empty(), t)
    } else {
        let (d, r) = scan_digits(t.skip(1));
        (seq![t[0]] + d, r)
    }
}

/// The number a run of decimal digits denotes.
pub open spec fn digits_val(d: Seq<char>) -> nat
    decreases d.len(),
{
    if d.len() == 0 {
        0
    } else {
        digits_val(d.drop_last()) * 10 + hex_val(d.last())
    }
}

/// Decimal renderings consist of decimal digits.
proof fn lemma_dec_str_digits(n: nat)
    ensures
        forall|i: int| 0 <= i < dec_str(n).len() ==> is_dec_digit(#[trigger] dec_str(n)[i]),
    decreases n,
{
    if n >= 10 {
        assert(n / 10 < n) by (nonlinear_arith)
            requires n >= 10;
        lemma_dec_str_digits(n / 10);
        assert forall|i: int| 0 <= i < dec_str(n).len() implies is_dec_digit(
            #[trigger] dec_str(n)[i],
        ) by {
            if i < dec_str(n).len() - 1 {
                assert(dec_str(n)[i] == dec_str(n / 10)[i]);
            }
        }
    }
}

/// Scanning an all-digit run followed by a non-digit splits exactly
/// there.
proof fn lemma_scan_digits_split(d: Seq<char>, rest: Seq<char>)
    requires
        forall|i: int| 0 <= i < d.len() ==> is_dec_digit(#[trigger] d[i]),
        rest.len() == 0 || !is_dec_digit(rest[0]),
    ensures
        scan_digits(d + rest) == (d, rest),
    decreases d.len(),
{
    let t = d + rest;
    if d.len() == 0 {
        assert(t =~= rest);
        assert(Seq::<char>::empty() =~= d);
    } else {
        lemma_scan_digits_split(d.drop_first(), rest);
        assert(t[0] == d[0]);
        assert(t.skip(1) =~= d.drop_first() + rest);
        assert(seq![d[0]] + d.drop_first() =~= d);
    }
}

/// The decimal rendering of a number denotes that number again.
proof fn lemma_digits_val_dec_str(n: nat)
    ensures
        digits_val(dec_str(n)) == n,
    decreases n,
{
    if n < 10 {
        assert(dec_str(n).len() == 1);
        assert(dec_str(n).drop_last() =~= Seq::<char>::empty());
        assert(dec_str(n).last() == digit_char(n));
        assert(digits_val(Seq::<char>::empty()) == 0);
        assert(digits_val(dec_str(n)) == digits_val(dec_str(n).drop_last()) * 10 + hex_val(
            dec_str(n).last(),
        ));
        assert(hex_val(digit_char(n)) == n);
    } else {
        assert(n / 10 < n) by (nonlinear_arith)
            requires n >= 10;
        lemma_digits_val_dec_str(n / 10);
        assert(dec_str(n).drop_last() =~= dec_str(n / 10));
        assert(dec_str(n).last() == digit_char(n % 10));
        assert(hex_val(digit_char(n % 10)) == n % 10);
        assert(digits_val(dec_str(n)) == (n / 10) * 10 + n % 10);
        assert((n / 10) * 10 + n % 10 == n) by (nonlinear_arith);
    }
}

/// The one-character string for a lowercase hexadecimal digit.
fn hex_str(d: u32) -> (r: &'static str)
    requires
        d < 16,
    ensures
        r@ == seq![hex_char(d as nat)],
{
    if d < 10 {
        crate::strutil::digit_str(d as u64)
    } else {
        proof {
            reveal_strlit("a");
            reveal_strlit("b");
            reveal_strlit("c");
            reveal_strlit("d");
            reveal_strlit("e");
            reveal_strlit("f");
        }
        let r: &'static str = if d == 10 {
            "a"
        } else if d == 11 {
            "b"
        } else if d == 12 {
            "c"
        } else if d == 13 {
            "d"
        } else if d == 14 {
            "e"
        } else {
            "f"
        };
        proof {
            assert(r@ =~= seq![hex_char(d as nat)]);
        }
        r
    }
}

/// Appends the escape sequence of one unsafe character.
fn append_esc_char(out: &mut String, c: char)
    requires
        !is_safe(c),
    ensures
        final(out)@ == old(out)@ + esc_char(c),
{
    if c == '"' {
        out.append("\\\"");
    } else if c == '\\' {
        out.append("\\\\");
    } else if c == '\u{8}' {
        out.append("\\b");
    } else if c == '\u{c}' {
        out.append("\\f");
    } else if c == '\n' {
        out.append("\\n");
    } else if c == '\r' {
        out.append("\\r");
    } else if c == '\t' {
        out.append("\\t");
    } else {
        let code = c as u32;
        out.append("\\u00");
        out.append(hex_str(code / 16));
        out.append(hex_str(code % 16));
        proof {
            assert(old(out)@ + "\\u00"@ + seq![hex_char((c as u32 / 16) as nat)] + seq![
                hex_char((c as u32 % 16) as nat),
            ] =~= old(out)@ + esc_char(c));
        }
    }
}

/// Appends `s` escaped for a JSON string literal, matching
/// `json_escaped`.
fn append_escaped(out: &mut String, s: &str)
    ensures
        final(out)@ == old(out)@ + json_escaped(s@),
{
    let len = s.unicode_len();
    let mut start: usize = 0;
    let mut i: usize = 0;
    while i < len
        invariant
            start <= i <= len,
            len == s@.len(),
            out@ == old(out)@ + json_escaped(s@.take(start as int)),
            forall|j: int| start <= j < i ==> is_safe(#[trigger] s@[j]),
        decreases len - i,
    {
        let c = s.get_char(i);
        if c == '"' || c == '\\' || (c as u32) < 0x20 {
            let run = s.substring_char(start, i);
            out.append(run);
            proof {
                lemma_escaped_safe_append(
                    s@.take(start as int),
                    s@.subrange(start as int, i as int),
                );
                assert(s@.take(start as int) + s@.subrange(start as int, i as int) =~= s@.take(
                    i as int,
                ));
            }
            append_esc_char(out, c);
            proof {
                assert(s@.take(i as int + 1).drop_last() =~= s@.take(i as int));
                assert(s@.take(i as int + 1).last() == s@[i as int]);
            }
            start = i + 1;
        }
        i += 1;
    }
    let run = s.substring_char(start, len);
    out.append(run);
    proof {
        lemma_escaped_safe_append(s@.take(start as int), s@.subrange(start as int, len as int));
        assert(s@.take(start as int) + s@.subrange(start as int, len as int) =~= s@.take(
            len as int,
        ));
        assert(s@.take(len as int) =~= s@);
    }
}

/// The fixed token for a node kind.
pub open spec fn kind_str(k: Kind) -> Seq<char> {
    match k {
        Kind::Dir => "dir"@,
        Kind::File => "file"@,
    }
}

/// The token for a node kind.
pub fn kind_as_str(k: Kind) -> (r: &'static str)
    ensures
        r@ == kind_str(k),
{
    match k {
        Kind::Dir => "dir",
        Kind::File => "file",
    }
}

/// The fixed token for a git state.
pub open spec fn git_str(g: GitState) -> Seq<char> {
    match g {
        GitState::Clean => "clean"@,
        GitState::Modified => "modified"@,
        GitState::Staged => "staged"@,
        GitState::Untracked => "untracked"@,
        GitState::Ignored => "ignored"@,
        GitState::Renamed => "renamed"@,
        GitState::Deleted => "deleted"@,
    }
}

/// The token for a git state.
pub fn git_as_str(g: GitState) -> (r: &'static str)
    ensures
        r@ == git_str(g),
{
    match g {
        GitState::Clean => "clean",
        GitState::Modified => "modified",
        GitState::Staged => "staged",
        GitState::Untracked => "untracked",
        GitState::Ignored => "ignored",
        GitState::Renamed => "renamed",
        GitState::Deleted => "deleted",
    }
}

/// The opening brace and the two fields every node carries.
pub open spec fn json_head(v: NodeView, ind1: Seq<char>) -> Seq<char> {
    "{\n"@ + ind1 + "\"name\": \""@ + json_escaped(v.name) + "\",\n"@ + ind1 + "\"kind\": \""@
        + kind_str(v.kind) + "\""@
}

/// The `size` field, present exactly when the node carries a size.
pub open spec fn json_size_part(v: NodeView, ind1: Seq<char>) -> Seq<char> {
    match v.size {
        Some(sz) => ",\n"@ + ind1 + "\"size\": "@ + dec_str(sz as nat),
        None => Seq::<char>::empty(),
    }
}

/// The `git` field, present exactly when the node carries a state.
pub open spec fn json_git_part(v: NodeView, ind1: Seq<char>) -> Seq<char> {
    match v.git {
        Some(g) => ",\n"@ + ind1 + "\"git\": \""@ + git_str(g) + "\""@,
        None => Seq::<char>::empty(),
    }
}

/// The `children` array, present exactly when there are children.
pub open spec fn json_children_part(v: NodeView, ind1: Seq<char>) -> Seq<char>
    decreases v, 1int,
{
    if v.children.len() > 0 {
        ",\n"@ + ind1 + "\"children\": [\n"@ + json_elems(v.children, ind1 + "  "@) + ind1 + "]"@
    } else {
        Seq::<char>::empty()
    }
}

/// The closing line of a node object.
pub open spec fn json_tail(ind: Seq<char>) -> Seq<char> {
    "\n"@ + ind + "}"@
}

/// The JSON object for one node, pretty-printed at the given
/// indentation: `name` and `kind` always, `size` when present, `git`
/// when present, `children` when non-empty.
pub open spec fn json_node_str(v: NodeView, ind: Seq<char>) -> Seq<char>
    decreases v, 2int,
{
    let ind1 = ind + "  "@;
    json_head(v, ind1) + json_size_part(v, ind1) + json_git_part(v, ind1) + json_children_part(
        v,
        ind1,
    ) + json_tail(ind)
}

/// The elements of a `children` array, each on its own indented line,
/// separated by commas.
pub open spec fn json_elems(cs: Seq<NodeView>, ind: Seq<char>) -> Seq<char>
    decreases cs, 3int,
{
    if cs.len() == 0 {
        Seq::<char>::empty()
    } else if cs.len() == 1 {
        ind + json_node_str(cs[0], ind) + "\n"@
    } else {
        ind + json_node_str(cs[0], ind) + ",\n"@ + json_elems(cs.drop_first(), ind)
    }
}

/// The number of nodes in a subtree; parsing consumes at most this
/// much fuel.
pub open spec fn size_node(v: NodeView) -> nat
    decreases v, 0int,
{
    1 + size_seq(v.children)
}

/// The number of nodes over a list of subtrees.
pub open spec fn size_seq(cs: Seq<NodeView>) -> nat
    decreases cs, 1int,
{
    if cs.len() == 0 {
        0nat
    } else {
        1 + size_node(cs[0]) + size_seq(cs.drop_first())
    }
}

/// `t` begins with `p`.
pub open spec fn begins(t: Seq<char>, p: Seq<char>) -> bool {
    p.len() <= t.len() && t.take(p.len() as int) == p
}

/// The kind a bare token stands for.
pub open spec fn kind_of_token(raw: Seq<char>) -> Option<Kind> {
    if raw == "dir"@ {
        Some(Kind::Dir)
    } else if raw == "file"@ {
        Some(Kind::File)
    } else {
        None
    }
}

/// The git state a bare token stands for.
pub open spec fn git_of_token(raw: Seq<char>) -> Option<GitState> {
    if raw == "clean"@ {
        Some(GitState::Clean)
    } else if raw == "modified"@ {
        Some(GitState::Modified)
    } else if raw == "staged"@ {
        Some(GitState::Staged)
    } else if raw == "untracked"@ {
        Some(GitState::Untracked)
    } else if raw == "ignored"@ {
        Some(GitState::Ignored)
    } else if raw == "renamed"@ {
        Some(GitState::Renamed)
    } else if raw == "deleted"@ {
        Some(GitState::Deleted)
    } else {
        None
    }
}

/// The literal that introduces a `size` field at this indentation.
pub open spec fn size_lit(ind1: Seq<char>) -> Seq<char> {
    ",\n"@ + ind1 + "\"size\": "@
}

/// The literal that introduces a `git` field at this indentation.
pub open spec fn git_lit(ind1: Seq<char>) -> Seq<char> {
    ",\n"@ + ind1 + "\"git\": \""@
}

/// The literal that introduces a `children` field at this
/// indentation.
pub open spec fn children_lit(ind1: Seq<char>) -> Seq<char> {
    ",\n"@ + ind1 + "\"children\": [\n"@
}

/// Parses an optional `size` field.
pub open spec fn parse_size(t: Seq<char>, ind1: Seq<char>) -> Option<(Option<u64>, Seq<char>)> {
    if begins(t, size_lit(ind1)) {
        let t1 = t.skip(size_lit(ind1).len() as int);
        let (d, r) = scan_digits(t1);
        if d.len() > 0 && digits_val(d) <= u64::MAX {
            Some((Some(digits_val(d) as u64), r))
        } else {
            None
        }
    } else {
        Some((None, t))
    }
}

/// Parses an optional `git` field.
pub open spec fn parse_git(t: Seq<char>, ind1: Seq<char>) -> Option<(
    Option<GitState>,
    Seq<char>,
)> {
    if begins(t, git_lit(ind1)) {
        let t1 = t.skip(git_lit(ind1).len() as int);
        match scan_string(t1) {
            Some((raw, r)) => match git_of_token(raw) {
                Some(g) => Some((Some(g), r)),
                None => None,
            },
            None => None,
        }
    } else {
        Some((None, t))
    }
}

/// Parses one node object at indentation `ind`, using `fuel` to bound
/// the recursion.
pub open spec fn parse_node(t: Seq<char>, ind: Seq<char>, fuel: nat) -> Option<(
    NodeView,
    Seq<char>,
)>
    decreases fuel, 2int,
{
    if fuel == 0 {
        None
    } else {
        let ind1 = ind + "  "@;
        let h1 = "{\n"@ + ind1 + "\"name\": \""@;
        if !begins(t, h1) {
            None
        } else {
            match scan_string(t.skip(h1.len() as int)) {
                None => None,
                Some((raw_name, t2)) => match json_unescaped(raw_name) {
                    None => None,
                    Some(name) => {
                        let h2 = ",\n"@ + ind1 + "\"kind\": \""@;
                        if !begins(t2, h2) {
                            None
                        } else {
                            match scan_string(t2.skip(h2.len() as int)) {
                                None => None,
                                Some((raw_kind, t3)) => match kind_of_token(raw_kind) {
                                    None => None,
                                    Some(kind) => match parse_size(t3, ind1) {
                                        None => None,
                                        Some((size, t4)) => match parse_git(t4, ind1) {
                                            None => None,
                                            Some((git, t5)) => match parse_children(
                                                t5,
                                                ind,
                                                fuel,
                                            ) {
                                                None => None,
                                                Some((children, t6)) => {
                                                    let tail = "\n"@ + ind + "}"@;
                                                    if begins(t6, tail) {
                                                        Some(
                                                            (
                                                                NodeView {
                                                                    name,
                                                                    kind,
                                                                    size,
                                                                    git,
                                                                    children,
                                                                },
                                                                t6.skip(tail.len() as int),
                                                            ),
                                                        )
                                                    } else {
                                                        None
                                                    }
                                                },
                                            },
                                        },
                                    },
                                },
                            }
                        }
                    },
                },
            }
        }
    }
}

/// Parses an optional `children` array at indentation `ind`.
pub open spec fn parse_children(t: Seq<char>, ind: Seq<char>, fuel: nat) -> Option<(
    Seq<NodeView>,
    Seq<char>,
)>
    decreases fuel, 1int,
{
    let ind1 = ind + "  "@;
    if begins(t, children_lit(ind1)) {
        parse_elems(t.skip(children_lit(ind1).len() as int), ind1 + "  "@, ind1, fuel)
    } else {
        Some((Seq::<NodeView>::empty(), t))
    }
}

/// Parses the elements of a `children` array: elements at indentation
/// `ind2`, closed by a bracket at indentation `ind1`.
pub open spec fn parse_elems(t: Seq<char>, ind2: Seq<char>, ind1: Seq<char>, fuel: nat) -> Option<
    (Seq<NodeView>, Seq<char>),
>
    decreases fuel, 0int,
{
    if fuel == 0 {
        None
    } else if !begins(t, ind2) {
        None
    } else {
        match parse_node(t.skip(ind2.len() as int), ind2, (fuel - 1) as nat) {
            None => None,
            Some((v, r)) => {
                let close = "\n"@ + ind1 + "]"@;
                if begins(r, ",\n"@) {
                    match parse_elems(r.skip(2), ind2, ind1, (fuel - 1) as nat) {
                        None => None,
                        Some((vs, r2)) => Some((seq![v] + vs, r2)),
                    }
                } else if begins(r, close) {
                    Some((seq![v], r.skip(close.len() as int)))
                } else {
                    None
                }
            },
        }
    }
}

/// Splitting a concatenation at the boundary.
proof fn lemma_peel(a: Seq<char>, b: Seq<char>)
    ensures
        begins(a + b, a),
        (a + b).skip(a.len() as int) == b,
{
    assert((a + b).take(a.len() as int) =~= a);
    assert((a + b).skip(a.len() as int) =~= b);
}

/// Walking the parser through the fixed header of a node object:
/// the name string and the kind token are recovered exactly.
proof fn lemma_parse_head(v: NodeView, ind: Seq<char>, a2: Seq<char>)
    ensures
        ({
            let ind1 = ind + "  "@;
            let h1 = "{\n"@ + ind1 + "\"name\": \""@;
            let h2 = ",\n"@ + ind1 + "\"kind\": \""@;
            let t = json_head(v, ind1) + a2;
            &&& begins(t, h1)
            &&& scan_string(t.skip(h1.len() as int)) matches Some((raw_name, t2))
                && json_unescaped(raw_name) == Some(v.name) && begins(t2, h2) && scan_string(
                t2.skip(h2.len() as int),
            ) == Some((kind_str(v.kind), a2)) && kind_of_token(kind_str(v.kind)) == Some(v.kind)
        }),
{
    reveal_strlit("\",\n");
    reveal_strlit(",\n");
    reveal_strlit("\"");
    reveal_strlit("dir");
    reveal_strlit("file");
    let ind1 = ind + "  "@;
    let h1 = "{\n"@ + ind1 + "\"name\": \""@;
    let h2 = ",\n"@ + ind1 + "\"kind\": \""@;
    let ne = json_escaped(v.name);
    let ktok = kind_str(v.kind);
    let t = json_head(v, ind1) + a2;
    // regroup the head chain behind each boundary in turn
    let k_tail = ktok + ("\""@ + a2);
    let after_name = "\",\n"@ + (ind1 + ("\"kind\": \""@ + k_tail));
    assert(t =~= h1 + (ne + after_name));
    lemma_peel(h1, ne + after_name);
    // the closing quote of the name is the first character after it
    assert("\",\n"@ =~= seq!['"'] + ",\n"@);
    assert(ne + after_name =~= ne + seq!['"'] + (",\n"@ + (ind1 + ("\"kind\": \""@ + k_tail))));
    lemma_scan_escaped(v.name, ",\n"@ + (ind1 + ("\"kind\": \""@ + k_tail)));
    lemma_json_escape_round_trip(v.name);
    let t2 = ",\n"@ + (ind1 + ("\"kind\": \""@ + k_tail));
    assert(t2 =~= h2 + k_tail);
    lemma_peel(h2, k_tail);
    // the kind token is plain text ended by its quote
    assert(k_tail =~= ktok + seq!['"'] + a2);
    assert forall|i: int| 0 <= i < ktok.len() implies #[trigger] ktok[i] != '"' && ktok[i]
        != '\\' by {}
    lemma_scan_plain(ktok, a2);
    assert(begins(t2, h2) && t2.skip(h2.len() as int) == k_tail);
    assert(scan_string(k_tail) == Some((ktok, a2)));
    match v.kind {
        Kind::Dir => {
            assert(ktok == "dir"@);
            assert(kind_of_token(ktok) == Some(Kind::Dir));
        },
        Kind::File => {
            assert(ktok == "file"@);
            assert("file"@ != "dir"@);
            assert(kind_of_token(ktok) == Some(Kind::File));
        },
    }
}

/// Walking the parser through the optional `size` field.
proof fn lemma_parse_size_rt(v: NodeView, ind1: Seq<char>, follow: Seq<char>)
    requires
        follow.len() > 0 ==> !is_dec_digit(follow[0]),
        v.size is None ==> !begins(follow, size_lit(ind1)),
    ensures
        parse_size(json_size_part(v, ind1) + follow, ind1) == Some((v.size, follow)),
{
    reveal_strlit(",\n");
    reveal_strlit("\"size\": ");
    let t = json_size_part(v, ind1) + follow;
    match v.size {
        Some(sz) => {
            let d = dec_str(sz as nat);
            assert(t =~= size_lit(ind1) + (d + follow));
            lemma_peel(size_lit(ind1), d + follow);
            lemma_dec_str_digits(sz as nat);
            lemma_scan_digits_split(d, follow);
            lemma_digits_val_dec_str(sz as nat);
            assert(d.len() > 0);
            assert(digits_val(d) == sz as nat);
            assert((digits_val(d) as u64) == sz);
        },
        None => {
            assert(t =~= follow);
        },
    }
}

/// Walking the parser through the optional `git` field.
proof fn lemma_parse_git_rt(v: NodeView, ind1: Seq<char>, follow: Seq<char>)
    requires
        v.git is None ==> !begins(follow, git_lit(ind1)),
    ensures
        parse_git(json_git_part(v, ind1) + follow, ind1) == Some((v.git, follow)),
{
    reveal_strlit(",\n");
    reveal_strlit("\"git\": \"");
    reveal_strlit("\"");
    reveal_strlit("clean");
    reveal_strlit("modified");
    reveal_strlit("staged");
    reveal_strlit("untracked");
    reveal_strlit("ignored");
    reveal_strlit("renamed");
    reveal_strlit("deleted");
    let t = json_git_part(v, ind1) + follow;
    match v.git {
        Some(g) => {
            let gtok = git_str(g);
            assert(t =~= git_lit(ind1) + (gtok + (seq!['"'] + follow)));
            lemma_peel(git_lit(ind1), gtok + (seq!['"'] + follow));
            assert(gtok + (seq!['"'] + follow) =~= gtok + seq!['"'] + follow);
            assert forall|i: int| 0 <= i < gtok.len() implies #[trigger] gtok[i] != '"' && gtok[i]
                != '\\' by {}
            lemma_scan_plain(gtok, follow);
            assert(git_of_token(gtok) == Some(g));
        },
        None => {
            assert(t =~= follow);
        },
    }
}

/// Parsing inverts rendering: the document of any node, followed by
/// anything, parses back to exactly that node.
#[verifier::rlimit(100)]
proof fn lemma_parse_node_rt(v: NodeView, ind: Seq<char>, after: Seq<char>, fuel: nat)
    requires
        fuel >= size_node(v),
    ensures
        parse_node(json_node_str(v, ind) + after, ind, fuel) == Some((v, after)),
    decreases v, 0int,
{
    reveal_strlit(",\n");
    reveal_strlit("\n");
    reveal_strlit("}");
    reveal_strlit("]");
    reveal_strlit("\"size\": ");
    reveal_strlit("\"git\": \"");
    reveal_strlit("\"children\": [\n");
    let ind1 = ind + "  "@;
    let ind2 = ind1 + "  "@;
    let s_part = json_size_part(v, ind1);
    let g_part = json_git_part(v, ind1);
    let c_part = json_children_part(v, ind1);
    let t_part = json_tail(ind);
    let t = json_node_str(v, ind) + after;
    let follow_g = c_part + (t_part + after);
    let follow_s = g_part + follow_g;
    let a2 = s_part + follow_s;
    assert(t =~= json_head(v, ind1) + a2);
    lemma_parse_head(v, ind, a2);
    // where the block after the kind field can start
    assert(t_part.len() >= 2 && t_part[0] == '\n');
    if v.git is Some {
        assert(follow_g.len() > 0);
    }
    assert(follow_s.len() > 0 && (follow_s[0] == ',' || follow_s[0] == '\n'));
    assert(!is_dec_digit(follow_s[0]));
    if v.size is None {
        assert(!begins(follow_s, size_lit(ind1))) by {
            if begins(follow_s, size_lit(ind1)) {
                assert(follow_s.take(size_lit(ind1).len() as int) == size_lit(ind1));
                let p = 2 + ind1.len() as int + 1;
                assert(size_lit(ind1)[p] == 's');
                if v.git is Some {
                    assert(follow_s[p] == git_lit(ind1)[p]);
                    assert(follow_s[p] == 'g');
                } else if v.children.len() > 0 {
                    assert(follow_s[p] == children_lit(ind1)[p]);
                    assert(follow_s[p] == 'c');
                } else {
                    assert(follow_s[0] == '\n');
                    assert(size_lit(ind1)[0] == ',');
                }
            }
        }
    }
    lemma_parse_size_rt(v, ind1, follow_s);
    if v.git is None {
        assert(!begins(follow_g, git_lit(ind1))) by {
            if begins(follow_g, git_lit(ind1)) {
                let p = 2 + ind1.len() as int + 1;
                assert(git_lit(ind1)[p] == 'g');
                if v.children.len() > 0 {
                    assert(follow_g[p] == children_lit(ind1)[p]);
                    assert(follow_g[p] == 'c');
                } else {
                    assert(follow_g[0] == '\n');
                    assert(git_lit(ind1)[0] == ',');
                }
            }
        }
    }
    lemma_parse_git_rt(v, ind1, follow_g);
    // the children array, or its absence
    if v.children.len() > 0 {
        let cs = v.children;
        assert(follow_g =~= children_lit(ind1) + (json_elems(cs, ind2) + (ind1 + ("]"@ + (
        t_part + after)))));
        lemma_peel(children_lit(ind1), json_elems(cs, ind2) + (ind1 + ("]"@ + (t_part + after))));
        lemma_parse_elems_rt(cs, ind2, ind1, t_part + after, fuel);
        assert(parse_children(follow_g, ind, fuel) == Some((cs, t_part + after)));
    } else {
        assert(!begins(follow_g, children_lit(ind1))) by {
            if begins(follow_g, children_lit(ind1)) {
                assert(follow_g =~= t_part + after);
                assert(follow_g[0] == t_part[0]);
                assert(children_lit(ind1).len() >= 2);
                assert(follow_g.take(children_lit(ind1).len() as int)[0] == follow_g[0]);
                assert(children_lit(ind1)[0] == ',');
            }
        }
        assert(follow_g =~= t_part + after);
        assert(parse_children(follow_g, ind, fuel) == Some(
            (Seq::<NodeView>::empty(), t_part + after),
        ));
        assert(v.children =~= Seq::<NodeView>::empty());
    }
    // the closing line
    let tail = "\n"@ + ind + "}"@;
    assert(t_part + after =~= tail + after);
    lemma_peel(tail, after);
    assert((NodeView { name: v.name, kind: v.kind, size: v.size, git: v.git, children: v.children })
        =~= v);
}

/// Parsing inverts rendering for a non-empty element list followed by
/// its closing bracket.
proof fn lemma_parse_elems_rt(
    cs: Seq<NodeView>,
    ind2: Seq<char>,
    ind1: Seq<char>,
    after: Seq<char>,
    fuel: nat,
)
    requires
        cs.len() >= 1,
        fuel >= size_seq(cs),
    ensures
        parse_elems(
            json_elems(cs, ind2) + (ind1 + ("]"@ + after)),
            ind2,
            ind1,
            fuel,
        ) == Some((cs, after)),
    decreases cs, 1int,
{
    reveal_strlit(",\n");
    reveal_strlit("\n");
    reveal_strlit("]");
    let t = json_elems(cs, ind2) + (ind1 + ("]"@ + after));
    let close = "\n"@ + ind1 + "]"@;
    assert(fuel >= 1);
    if cs.len() == 1 {
        let rest0 = "\n"@ + (ind1 + ("]"@ + after));
        assert(t =~= ind2 + (json_node_str(cs[0], ind2) + rest0));
        lemma_peel(ind2, json_node_str(cs[0], ind2) + rest0);
        lemma_parse_node_rt(cs[0], ind2, rest0, (fuel - 1) as nat);
        assert(rest0[0] == '\n');
        assert(!begins(rest0, ",\n"@)) by {
            if begins(rest0, ",\n"@) {
                assert(",\n"@.len() == 2);
                assert(rest0.take(2) == ",\n"@);
                assert(rest0.take(2)[0] == rest0[0]);
                assert((",\n"@)[0] == ',');
            }
        }
        assert(rest0 =~= close + after);
        lemma_peel(close, after);
        assert(seq![cs[0]] =~= cs);
    } else {
        let rest_elems = json_elems(cs.drop_first(), ind2) + (ind1 + ("]"@ + after));
        let rest0 = ",\n"@ + rest_elems;
        assert(t =~= ind2 + (json_node_str(cs[0], ind2) + rest0));
        lemma_peel(ind2, json_node_str(cs[0], ind2) + rest0);
        lemma_parse_node_rt(cs[0], ind2, rest0, (fuel - 1) as nat);
        assert(begins(rest0, ",\n"@) && rest0.skip(2) == rest_elems) by {
            lemma_peel(",\n"@, rest_elems);
        }
        lemma_parse_elems_rt(cs.drop_first(), ind2, ind1, after, (fuel - 1) as nat);
        assert(seq![cs[0]] + cs.drop_first() =~= cs);
    }
}

/// A rendered document parses back to exactly the tree it came from:
/// every node's name, kind, size, state and children are reproduced.
pub proof fn lemma_json_round_trip(v: NodeView, ind: Seq<char>)
    ensures
        parse_node(json_node_str(v, ind), ind, size_node(v)) == Some((v, Seq::<char>::empty())),
{
    lemma_parse_node_rt(v, ind, Seq::<char>::empty(), size_node(v));
    assert(json_node_str(v, ind) + Seq::<char>::empty() =~= json_node_str(v, ind));
}

/// Rendering is injective: two trees with the same document are the
/// same tree.
pub proof fn lemma_json_injective(v1: NodeView, v2: NodeView, ind: Seq<char>)
    requires
        json_node_str(v1, ind) == json_node_str(v2, ind),
    ensures
        v1 == v2,
{
    let fuel = size_node(v1) + size_node(v2);
    lemma_parse_node_rt(v1, ind, Seq::<char>::empty(), fuel);
    lemma_parse_node_rt(v2, ind, Seq::<char>::empty(), fuel);
}

/// Concatenation of character sequences is associative.
proof fn lemma_assoc(a: Seq<char>, b: Seq<char>, c: Seq<char>)
    ensures
        (a + b) + c == a + (b + c),
{
    assert((a + b) + c =~= a + (b + c));
}

/// Appends the JSON object for `n` at the given indentation.
#[verifier::loop_isolation(false)]
fn append_node(out: &mut String, n: &Node, indent: &str)
    ensures
        final(out)@ == old(out)@ + json_node_str(node_view(*n), indent@),
    decreases *n,
{
    let ghost v = node_view(*n);
    let ghost ind1v = indent@ + "  "@;
    let mut ind1 = indent.to_owned();
    ind1.append("  ");

    let mut head = "{\n".to_owned();
    head.append(ind1.as_str());
    head.append("\"name\": \"");
    append_escaped(&mut head, n.name.as_str());
    head.append("\",\n");
    head.append(ind1.as_str());
    head.append("\"kind\": \"");
    head.append(kind_as_str(n.meta.kind));
    head.append("\"");
    proof {
        assert(head@ == json_head(v, ind1v));
    }

    let mut size_part = String::new();
    if let Some(sz) = n.meta.size {
        size_part = ",\n".to_owned();
        size_part.append(ind1.as_str());
        size_part.append("\"size\": ");
        let digits = u64_to_string(sz);
        size_part.append(digits.as_str());
    }
    proof {
        assert(size_part@ == json_size_part(v, ind1v));
    }

    let mut git_part = String::new();
    if let Some(g) = n.meta.git {
        git_part = ",\n".to_owned();
        git_part.append(ind1.as_str());
        git_part.append("\"git\": \"");
        git_part.append(git_as_str(g));
        git_part.append("\"");
    }
    proof {
        assert(git_part@ == json_git_part(v, ind1v));
    }

    let mut children_part = String::new();
    let mut has_children = false;
    if let Some(cs) = &n.children {
        if cs.len() > 0 {
            has_children = true;
            children_part = ",\n".to_owned();
            children_part.append(ind1.as_str());
            children_part.append("\"children\": [\n");
            let mut ind2 = ind1.clone();
            ind2.append("  ");
            let ghost cv = crate::node::nodes_view(cs@);
            proof {
                crate::node::lemma_nodes_view_index(cs@);
                assert(cv.skip(0) =~= cv);
            }
            let ghost elems_whole = json_elems(cv, ind2@);
            let ghost base = children_part@;
            let len = cs.len();
            let mut i: usize = 0;
            while i < len
                invariant
                    i <= len,
                    len == cs@.len(),
                    cs@.len() == cv.len(),
                    forall|j: int| 0 <= j < cv.len() ==> cv[j] == node_view(cs@[j]),
                    children_part@ + json_elems(cv.skip(i as int), ind2@) == base + elems_whole,
                decreases len - i,
            {
                let ghost c0 = children_part@;
                let ghost node_i = json_node_str(cv[i as int], ind2@);
                proof {
                    assert(cv.skip(i as int)[0] == cv[i as int]);
                    if i + 1 < len {
                        assert(cv.skip(i as int).drop_first() =~= cv.skip(i as int + 1));
                    }
                }
                children_part.append(ind2.as_str());
                append_node(&mut children_part, &cs[i], ind2.as_str());
                if i == len - 1 {
                    children_part.append("\n");
                    proof {
                        lemma_assoc(c0, ind2@, node_i);
                        lemma_assoc(c0, ind2@ + node_i, "\n"@);
                    }
                } else {
                    children_part.append(",\n");
                    proof {
                        lemma_assoc(c0, ind2@, node_i);
                        lemma_assoc(c0, ind2@ + node_i, ",\n"@);
                        lemma_assoc(
                            c0,
                            ind2@ + node_i + ",\n"@,
                            json_elems(cv.skip(i as int + 1), ind2@),
                        );
                    }
                }
                i += 1;
                proof {
                    if i == len {
                        assert(cv.skip(i as int) =~= Seq::<NodeView>::empty());
                        lemma_concat_empty(children_part@);
                    }
                }
            }
            proof {
                assert(cv.skip(len as int) =~= Seq::<NodeView>::empty());
                lemma_concat_empty(children_part@);
                assert(children_part@ == base + elems_whole);
            }
            children_part.append(ind1.as_str());
            children_part.append("]");
        }
    }
    proof {
        if !has_children {
            assert(v.children.len() == 0);
        }
        assert(children_part@ == json_children_part(v, ind1v));
    }

    let mut tail = "\n".to_owned();
    tail.append(indent);
    tail.append("}");
    proof {
        assert(tail@ == json_tail(indent@));
    }

    let ghost m0 = out@;
    out.append(head.as_str());
    out.append(size_part.as_str());
    out.append(git_part.as_str());
    out.append(children_part.as_str());
    out.append(tail.as_str());
    proof {
        let h = json_head(v, ind1v);
        let s = json_size_part(v, ind1v);
        let g = json_git_part(v, ind1v);
        let c = json_children_part(v, ind1v);
        let t = json_tail(indent@);
        lemma_assoc(m0, h, s);
        lemma_assoc(m0, h + s, g);
        lemma_assoc(m0, h + s + g, c);
        lemma_assoc(m0, h + s + g + c, t);
        assert(out@ == m0 + json_node_str(v, indent@));
    }
}

/// Renders the whole tree as one pretty-printed JSON document.
pub fn render(root: &Node) -> (r: String)
    ensures
        r@ == json_node_str(node_view(*root), Seq::<char>::empty()),
{
    let mut out = String::new();
    proof {
        reveal_strlit("");
        assert(""@ =~= Seq::<char>::empty());
    }
    append_node(&mut out, root, "");
    proof {
        assert(out@ =~= json_node_str(node_view(*root), Seq::<char>::empty()));
    }
    out
}

} // verus!
