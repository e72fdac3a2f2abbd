use vstd::prelude::*;
use crate::digits::{
    digit_boundary, is_digit, matches_at, parse_u64_at, spec_dec, u32_to_string,
};
use crate::metainfo::{Metainfo, MetainfoView, RunCommand, RunCommandView, Status};

verus! {

/// The state store's own record format.  `to_json` renders a record as
/// one compact JSON document, exactly as `json_meta` describes, and
/// `from_json` reads such a document back.  String fields are carried
/// between quotes with the double quote, the backslash and every
/// control character escaped, exactly as the documents on disk carry
/// them.
pub open spec fn hex_char(d: int) -> char {
    if d == 0 {
        '0'
    } else if d == 1 {
        '1'
    } else if d == 2 {
        '2'
    } else if d == 3 {
        '3'
    } else if d == 4 {
        '4'
    } else if d == 5 {
        '5'
    } else if d == 6 {
        '6'
    } else if d == 7 {
        '7'
    } else if d == 8 {
        '8'
    } else if d == 9 {
        '9'
    } else if d == 10 {
        'a'
    } else if d == 11 {
        'b'
    } else if d == 12 {
        'c'
    } else if d == 13 {
        'd'
    } else if d == 14 {
        'e'
    } else {
        'f'
    }
}

/// How one character stands inside a quoted field: itself, unless it is
/// the quote, the backslash, or a control character — those travel
/// escaped, the named ones short, the rest as a four-digit code.
pub open spec fn esc(c: char) -> Seq<char> {
    if c == '"' {
        seq!['\\', '"']
    } else if c == '\\' {
        seq!['\\', '\\']
    } else if c == '\u{8}' {
        seq!['\\', 'b']
    } else if c == '\u{9}' {
        seq!['\\', 't']
    } else if c == '\u{a}' {
        seq!['\\', 'n']
    } else if c == '\u{c}' {
        seq!['\\', 'f']
    } else if c == '\u{d}' {
        seq!['\\', 'r']
    } else if (c as u32) < 32 {
        seq!['\\', 'u', '0', '0', hex_char(c as u32 as int / 16), hex_char(c as u32 as int % 16)]
    } else {
        seq![c]
    }
}

/// A whole string field, character by character.
pub open spec fn escape_seq(s: Seq<char>) -> Seq<char>
    decreases s.len(),
{
    if s.len() == 0 {
        Seq::empty()
    } else {
        escape_seq(s.drop_last()) + esc(s.last())
    }
}

/// The escaping can be peeled from the front as well.
pub proof fn lemma_escape_first(s: Seq<char>)
    requires
        s.len() > 0,
    ensures
        escape_seq(s) == esc(s[0]) + escape_seq(s.drop_first()),
    decreases s.len(),
{
    if s.len() == 1 {
        assert(s.drop_last() =~= Seq::<char>::empty());
        assert(s.drop_first() =~= Seq::<char>::empty());
        assert(escape_seq(s) =~= esc(s[0]) + escape_seq(s.drop_first()));
    } else {
        let dl = s.drop_last();
        lemma_escape_first(dl);
        assert(dl[0] == s[0]);
        assert(s.drop_first().drop_last() =~= dl.drop_first());
        assert(s.drop_first().last() == s.last());
        assert(escape_seq(s) =~= esc(s[0]) + escape_seq(s.drop_first()));
    }
}

/// What stands after the opening quote of a string field: the escaped
/// characters and the closing quote.
pub open spec fn str_close(t: Seq<char>) -> Seq<char> {
    escape_seq(t) + seq!['"']
}

pub open spec fn json_string(s: Seq<char>) -> Seq<char> {
    seq!['"'] + escape_seq(s) + seq!['"']
}

pub open spec fn json_opt_string(o: Option<Seq<char>>) -> Seq<char> {
    match o {
        None => "null"@,
        Some(s) => json_string(s),
    }
}

pub open spec fn json_opt_u32(o: Option<u32>) -> Seq<char> {
    match o {
        None => "null"@,
        Some(n) => spec_dec(n as nat),
    }
}

pub open spec fn json_bool(b: bool) -> Seq<char> {
    if b {
        "true"@
    } else {
        "false"@
    }
}

/// Relies on String::push: it appends exactly the one character.
#[verifier::external_body]
fn push_char(out: &mut String, c: char)
    ensures
        final(out)@ == old(out)@ + seq![c],
{
    out.push(c);
}

fn hex_digit_str(d: u32) -> (r: &'static str)
    requires
        d < 16,
    ensures
        r@ =~= seq![hex_char(d as int)],
{
    proof {
        reveal_strlit("0");
        reveal_strlit("1");
        reveal_strlit("2");
        reveal_strlit("3");
        reveal_strlit("4");
        reveal_strlit("5");
        reveal_strlit("6");
        reveal_strlit("7");
        reveal_strlit("8");
        reveal_strlit("9");
        reveal_strlit("a");
        reveal_strlit("b");
        reveal_strlit("c");
        reveal_strlit("d");
        reveal_strlit("e");
        reveal_strlit("f");
    }
    if d == 0 {
        "0"
    } else if d == 1 {
        "1"
    } else if d == 2 {
        "2"
    } else if d == 3 {
        "3"
    } else if d == 4 {
        "4"
    } else if d == 5 {
        "5"
    } else if d == 6 {
        "6"
    } else if d == 7 {
        "7"
    } else if d == 8 {
        "8"
    } else if d == 9 {
        "9"
    } else if d == 10 {
        "a"
    } else if d == 11 {
        "b"
    } else if d == 12 {
        "c"
    } else if d == 13 {
        "d"
    } else if d == 14 {
        "e"
    } else {
        "f"
    }
}

/// Append one character, escaped as the format carries it.
fn write_escaped_char(out: &mut String, c: char)
    ensures
        final(out)@ == old(out)@ + esc(c),
{
    if c == '"' {
        out.append("\\\"");
        proof {
            reveal_strlit("\\\"");
            assert(final(out)@ =~= old(out)@ + esc(c));
        }
    } else if c == '\\' {
        out.append("\\\\");
        proof {
            reveal_strlit("\\\\");
            assert(final(out)@ =~= old(out)@ + esc(c));
        }
    } else if c == '\u{8}' {
        out.append("\\b");
        proof {
            reveal_strlit("\\b");
            assert(final(out)@ =~= old(out)@ + esc(c));
        }
    } else if c == '\u{9}' {
        out.append("\\t");
        proof {
            reveal_strlit("\\t");
            assert(final(out)@ =~= old(out)@ + esc(c));
        }
    } else if c == '\u{a}' {
        out.append("\\n");
        proof {
            reveal_strlit("\\n");
            assert(final(out)@ =~= old(out)@ + esc(c));
        }
    } else if c == '\u{c}' {
        out.append("\\f");
        proof {
            reveal_strlit("\\f");
            assert(final(out)@ =~= old(out)@ + esc(c));
        }
    } else if c == '\u{d}' {
        out.append("\\r");
        proof {
            reveal_strlit("\\r");
            assert(final(out)@ =~= old(out)@ + esc(c));
        }
    } else if (c as u32) < 32 {
        out.append("\\u00");
        out.append(hex_digit_str((c as u32) / 16));
        out.append(hex_digit_str((c as u32) % 16));
        proof {
            reveal_strlit("\\u00");
            assert(final(out)@ =~= old(out)@ + esc(c));
        }
    } else {
        push_char(out, c);
        proof {
            assert(final(out)@ =~= old(out)@ + esc(c));
        }
    }
}

/// Append a quoted string field to the output.
fn write_json_string(out: &mut String, s: &str)
    ensures
        final(out)@ == old(out)@ + json_string(s@),
{
    out.append("\"");
    proof {
        reveal_strlit("\"");
        assert(escape_seq(s@.subrange(0, 0)) =~= Seq::<char>::empty());
        assert(out@ =~= old(out)@ + seq!['"'] + escape_seq(s@.subrange(0, 0)));
    }
    let n = s.unicode_len();
    let mut i: usize = 0;
    while i < n
        invariant
            i <= n,
            n == s@.len(),
            out@ == old(out)@ + seq!['"'] + escape_seq(s@.subrange(0, i as int)),
        decreases n - i,
    {
        let c = s.get_char(i);
        write_escaped_char(out, c);
        proof {
            assert(s@.subrange(0, i + 1).drop_last() =~= s@.subrange(0, i as int));
            assert(s@.subrange(0, i + 1).last() == s@[i as int]);
            assert(out@ =~= old(out)@ + seq!['"'] + escape_seq(s@.subrange(0, i + 1)));
        }
        i = i + 1;
    }
    out.append("\"");
    proof {
        reveal_strlit("\"");
        assert(s@.subrange(0, n as int) =~= s@);
        assert(final(out)@ =~= old(out)@ + json_string(s@));
    }
}

fn write_json_opt_string(out: &mut String, o: &Option<String>)
    ensures
        final(out)@ == old(out)@ + json_opt_string(crate::metainfo::view_opt_string(*o)),
{
    match o {
        None => out.append("null"),
        Some(s) => write_json_string(out, s.as_str()),
    }
}

fn write_json_opt_u32(out: &mut String, o: &Option<u32>)
    ensures
        final(out)@ == old(out)@ + json_opt_u32(*o),
{
    match o {
        None => out.append("null"),
        Some(n) => {
            let d = u32_to_string(*n);
            out.append(d.as_str());
        },
    }
}

fn write_json_bool(out: &mut String, b: bool)
    ensures
        final(out)@ == old(out)@ + json_bool(b),
{
    if b {
        out.append("true");
    } else {
        out.append("false");
    }
}

/// Does the text of `lit` stand in `s` at position `i`?  On success the
/// position just past it is returned.
pub(crate) fn parse_lit(s: &str, n: usize, i: usize, lit: &str) -> (r: Option<usize>)
    requires
        n == s@.len(),
        i <= n,
    ensures
        match r {
            Some(j) => matches_at(s@, i as int, lit@) && j == i + lit@.len(),
            None => !matches_at(s@, i as int, lit@),
        },
{
    let ln = lit.unicode_len();
    if ln > n - i {
        return None;
    }
    let mut k: usize = 0;
    while k < ln
        invariant
            n == s@.len(),
            ln == lit@.len(),
            i + ln <= n,
            k <= ln,
            forall|t: int| 0 <= t < k ==> s@[i + t] == lit@[t],
        decreases ln - k,
    {
        if s.get_char(i + k) != lit.get_char(k) {
            return None;
        }
        k = k + 1;
    }
    proof {
        assert(s@.subrange(i as int, i + ln as int) =~= lit@);
    }
    Some(i + ln)
}

/// One lowercase hex digit's value.
fn hex_val(c: char) -> (r: Option<u32>)
    ensures
        match r {
            Some(v) => v < 16 && c == hex_char(v as int),
            None => forall|d: int| 0 <= d < 16 ==> c != hex_char(d),
        },
{
    let u = c as u32;
    let result: Option<u32> = if 48 <= u && u <= 57 {
        Some(u - 48)
    } else if 97 <= u && u <= 102 {
        Some(u - 87)
    } else {
        None
    };
    proof {
        crate::digits::lemma_char_code(c);
        match result {
            Some(v) => {
                crate::digits::lemma_char_code(hex_char(v as int));
                assert(hex_char(v as int) as u32 == c as u32);
                assert(hex_char(v as int) == c);
            },
            None => {
                assert forall|d: int| 0 <= d < 16 implies c != hex_char(d) by {
                    if c == hex_char(d) {
                        assert(c as u32 == hex_char(d) as u32);
                    }
                }
            },
        }
    }
    result
}

/// The control character of a code below 32.
fn ctl_char(code: u32) -> (c: char)
    requires
        code < 32,
    ensures
        c as u32 == code,
{
    if code == 0 {
        '\u{0}'
    } else if code == 1 {
        '\u{1}'
    } else if code == 2 {
        '\u{2}'
    } else if code == 3 {
        '\u{3}'
    } else if code == 4 {
        '\u{4}'
    } else if code == 5 {
        '\u{5}'
    } else if code == 6 {
        '\u{6}'
    } else if code == 7 {
        '\u{7}'
    } else if code == 8 {
        '\u{8}'
    } else if code == 9 {
        '\u{9}'
    } else if code == 10 {
        '\u{a}'
    } else if code == 11 {
        '\u{b}'
    } else if code == 12 {
        '\u{c}'
    } else if code == 13 {
        '\u{d}'
    } else if code == 14 {
        '\u{e}'
    } else if code == 15 {
        '\u{f}'
    } else if code == 16 {
        '\u{10}'
    } else if code == 17 {
        '\u{11}'
    } else if code == 18 {
        '\u{12}'
    } else if code == 19 {
        '\u{13}'
    } else if code == 20 {
        '\u{14}'
    } else if code == 21 {
        '\u{15}'
    } else if code == 22 {
        '\u{16}'
    } else if code == 23 {
        '\u{17}'
    } else if code == 24 {
        '\u{18}'
    } else if code == 25 {
        '\u{19}'
    } else if code == 26 {
        '\u{1a}'
    } else if code == 27 {
        '\u{1b}'
    } else if code == 28 {
        '\u{1c}'
    } else if code == 29 {
        '\u{1d}'
    } else if code == 30 {
        '\u{1e}'
    } else {
        '\u{1f}'
    }
}

/// Two escape units standing at the same place spell the same
/// character: the code is prefix-unambiguous.
proof fn lemma_esc_unambiguous(sv: Seq<char>, j: int, a: char, b: char)
    requires
        matches_at(sv, j, esc(a)),
        matches_at(sv, j, esc(b)),
    ensures
        a == b,
{
    lemma_matches_index(sv, j, esc(a), 0);
    lemma_matches_index(sv, j, esc(b), 0);
    if esc(a)[0] != '\\' {
        assert(esc(a) == seq![a] && esc(b) == seq![b]);
        assert(a == sv[j] && b == sv[j]);
    } else {
        lemma_matches_index(sv, j, esc(a), 1);
        lemma_matches_index(sv, j, esc(b), 1);
        assert(esc(a)[1] == esc(b)[1]);
        if esc(a)[1] == 'u' {
            assert(esc(a).len() == 6 && esc(b).len() == 6);
            lemma_matches_index(sv, j, esc(a), 4);
            lemma_matches_index(sv, j, esc(b), 4);
            lemma_matches_index(sv, j, esc(a), 5);
            lemma_matches_index(sv, j, esc(b), 5);
            lemma_hex_char_inj(a as u32 as int / 16, b as u32 as int / 16);
            lemma_hex_char_inj(a as u32 as int % 16, b as u32 as int % 16);
            crate::digits::lemma_char_code(a);
            crate::digits::lemma_char_code(b);
        } else {
            assert(a == b);
        }
    }
}

/// Two hex digits name two different values only as different characters.
proof fn lemma_hex_char_inj(a: int, b: int)
    requires
        0 <= a < 16,
        0 <= b < 16,
        hex_char(a) == hex_char(b),
    ensures
        a == b,
{
    if a != b {
        assert(hex_char(a) as u32 != hex_char(b) as u32);
    }
}

/// The first character of a non-empty field stands escaped right at
/// `j`, with the rest of the field after it.
proof fn lemma_first_unit(sv: Seq<char>, j: int, t: Seq<char>)
    requires
        matches_at(sv, j, str_close(t)),
        t.len() > 0,
    ensures
        matches_at(sv, j, esc(t[0])),
        matches_at(sv, j + esc(t[0]).len(), str_close(t.drop_first())),
        sv[j] == esc(t[0])[0],
        forall|x: int| 0 <= x < esc(t[0]).len() ==> sv[j + x] == esc(t[0])[x],
{
    lemma_escape_first(t);
    assert(str_close(t) =~= esc(t[0]) + str_close(t.drop_first()));
    lemma_matches_split(sv, j, esc(t[0]), str_close(t.drop_first()));
    lemma_matches_first(sv, j, esc(t[0]));
    assert forall|x: int| 0 <= x < esc(t[0]).len() implies sv[j + x] == esc(t[0])[x] by {
        lemma_matches_index(sv, j, esc(t[0]), x);
    }
}

/// Read the characters of a string field up to and including the
/// closing quote, unescaping each unit into `out`.  Exactly the texts
/// `str_close` emits are read back, and to the very characters they
/// were written from.
#[verifier::rlimit(100)]
fn parse_str_chars(s: &str, n: usize, j: usize, out: &mut String) -> (r: Option<usize>)
    requires
        n == s@.len(),
        j <= n,
    ensures
        match r {
            Some(e) => exists|t: Seq<char>|
                final(out)@ == old(out)@ + t && matches_at(s@, j as int, #[trigger] str_close(t))
                    && e == j + str_close(t).len(),
            None => true,
        },
        forall|t: Seq<char>| #[trigger]
            matches_at(s@, j as int, str_close(t)) ==> r == Some::<usize>(
                (j + str_close(t).len()) as usize,
            ) && final(out)@ == old(out)@ + t,
    decreases n - j,
{
    let ghost sv = s@;
    if j >= n {
        proof {
            assert forall|t: Seq<char>| #[trigger]
                matches_at(sv, j as int, str_close(t)) implies false by {
                assert(str_close(t).len() >= 1);
            }
        }
        return None;
    }
    let c = s.get_char(j);
    if c == '"' {
        let ghost empty = Seq::<char>::empty();
        proof {
            assert(escape_seq(empty) =~= Seq::<char>::empty());
            assert(sv.subrange(j as int, j + 1) =~= str_close(empty));
            assert(matches_at(sv, j as int, str_close(empty)));
            assert(out@ =~= old(out)@ + empty);
            assert forall|t: Seq<char>| #[trigger]
                matches_at(sv, j as int, str_close(t)) implies t =~= empty by {
                if t.len() > 0 {
                    lemma_first_unit(sv, j as int, t);
                    assert(esc(t[0])[0] != '"');
                    assert(false);
                }
            }
        }
        return Some(j + 1);
    }
    // determine the escape unit standing at `j`, if any
    let decoded: char;
    let unit_len: usize;
    if c == '\\' {
        if j + 1 >= n {
            proof {
                assert forall|t: Seq<char>| #[trigger]
                    matches_at(sv, j as int, str_close(t)) implies false by {
                    reject_unit(sv, j as int, t, n as int);
                }
            }
            return None;
        }
        let d = s.get_char(j + 1);
        if d == '"' {
            decoded = '"';
            unit_len = 2;
            proof {
                assert(sv.subrange(j as int, j + 2) =~= esc(decoded));
            }
        } else if d == '\\' {
            decoded = '\\';
            unit_len = 2;
            proof {
                assert(sv.subrange(j as int, j + 2) =~= esc(decoded));
            }
        } else if d == 'b' {
            decoded = '\u{8}';
            unit_len = 2;
            proof {
                assert(sv.subrange(j as int, j + 2) =~= esc(decoded));
            }
        } else if d == 't' {
            decoded = '\u{9}';
            unit_len = 2;
            proof {
                assert(sv.subrange(j as int, j + 2) =~= esc(decoded));
            }
        } else if d == 'n' {
            decoded = '\u{a}';
            unit_len = 2;
            proof {
                assert(sv.subrange(j as int, j + 2) =~= esc(decoded));
            }
        } else if d == 'f' {
            decoded = '\u{c}';
            unit_len = 2;
            proof {
                assert(sv.subrange(j as int, j + 2) =~= esc(decoded));
            }
        } else if d == 'r' {
            decoded = '\u{d}';
            unit_len = 2;
            proof {
                assert(sv.subrange(j as int, j + 2) =~= esc(decoded));
            }
        } else if d == 'u' {
            if n - j < 6 || s.get_char(j + 2) != '0' || s.get_char(j + 3) != '0' {
                proof {
                    assert forall|t: Seq<char>| #[trigger]
                        matches_at(sv, j as int, str_close(t)) implies false by {
                        reject_unit(sv, j as int, t, n as int);
                    }
                }
                return None;
            }
            let h1 = hex_val(s.get_char(j + 4));
            let h2 = hex_val(s.get_char(j + 5));
            let (v1, v2) = match (h1, h2) {
                (Some(v1), Some(v2)) => (v1, v2),
                _ => {
                    proof {
                        assert forall|t: Seq<char>| #[trigger]
                            matches_at(sv, j as int, str_close(t)) implies false by {
                            reject_unit(sv, j as int, t, n as int);
                        }
                    }
                    return None;
                },
            };
            let code = v1 * 16 + v2;
            if !(code < 32 && code != 8 && code != 9 && code != 10 && code != 12 && code != 13) {
                // the format never writes such a code this way
                proof {
                    assert forall|t: Seq<char>| #[trigger]
                        matches_at(sv, j as int, str_close(t)) implies false by {
                        reject_unit(sv, j as int, t, n as int);
                        let t0 = t[0];
                        assert(esc(t0)[1] == 'u');
                        assert(esc(t0).len() == 6);
                        assert(hex_char(t0 as u32 as int / 16) == hex_char(v1 as int));
                        assert(hex_char(t0 as u32 as int % 16) == hex_char(v2 as int));
                        lemma_hex_char_inj(t0 as u32 as int / 16, v1 as int);
                        lemma_hex_char_inj(t0 as u32 as int % 16, v2 as int);
                        assert(t0 as u32 == code);
                        crate::digits::lemma_char_code(t0);
                    }
                }
                return None;
            }
            decoded = ctl_char(code);
            unit_len = 6;
            proof {
                crate::digits::lemma_char_code(decoded);
                assert(decoded as u32 == code);
                // the decoded character is no short-escaped one, so its
                // escape is the four-digit form read here
                assert(decoded != '\u{8}' && decoded != '\u{9}' && decoded != '\u{a}'
                    && decoded != '\u{c}' && decoded != '\u{d}' && decoded != '"' && decoded
                    != '\\');
                assert(code / 16 == v1 && code % 16 == v2);
                assert(sv[j + 4] == hex_char(v1 as int));
                assert(sv[j + 5] == hex_char(v2 as int));
                assert(sv.subrange(j as int, j + 6) =~= esc(decoded));
            }
        } else {
            proof {
                assert forall|t: Seq<char>| #[trigger]
                    matches_at(sv, j as int, str_close(t)) implies false by {
                    reject_unit(sv, j as int, t, n as int);
                }
            }
            return None;
        }
    } else if (c as u32) < 32 {
        // a raw control character never stands inside a field
        proof {
            assert forall|t: Seq<char>| #[trigger]
                matches_at(sv, j as int, str_close(t)) implies false by {
                if t.len() == 0 {
                    lemma_matches_first(sv, j as int, str_close(t));
                } else {
                    lemma_first_unit(sv, j as int, t);
                }
            }
        }
        return None;
    } else {
        decoded = c;
        unit_len = 1;
        proof {
            assert(sv.subrange(j as int, j + 1) =~= esc(decoded));
        }
    }
    proof {
        // the unit at `j` is exactly the escape of `decoded` …
        assert(unit_len == esc(decoded).len() && matches_at(sv, j as int, esc(decoded)));
        // … and any field matching here begins with `decoded`
        assert forall|t: Seq<char>| #[trigger]
            matches_at(sv, j as int, str_close(t)) implies t.len() > 0 && t[0] == decoded by {
            if t.len() == 0 {
                lemma_matches_first(sv, j as int, str_close(t));
                assert(sv[j as int] == '"');
                assert(false);
            }
            lemma_first_unit(sv, j as int, t);
            lemma_esc_unambiguous(sv, j as int, t[0], decoded);
        }
    }
    push_char(out, decoded);
    let ghost mid = out@;
    let r2 = parse_str_chars(s, n, j + unit_len, out);
    proof {
        match r2 {
            Some(e) => {
                let t2 = choose|t2: Seq<char>|
                    out@ == mid + t2 && matches_at(
                        sv,
                        j + unit_len,
                        #[trigger] str_close(t2),
                    ) && e == j + unit_len + str_close(t2).len();
                let whole = seq![decoded] + t2;
                assert(whole[0] == decoded && whole.drop_first() =~= t2);
                lemma_escape_first(whole);
                assert(str_close(whole) =~= esc(decoded) + str_close(t2));
                lemma_matches_join(sv, j as int, esc(decoded), str_close(t2));
                assert(matches_at(sv, j as int, str_close(whole)));
                assert(out@ =~= old(out)@ + whole);
                assert(e == j + str_close(whole).len());
            },
            None => {},
        }
        assert forall|t: Seq<char>| #[trigger]
            matches_at(sv, j as int, str_close(t)) implies r2 == Some::<usize>(
            (j + str_close(t).len()) as usize,
        ) && out@ == old(out)@ + t by {
            assert(t.len() > 0 && t[0] == decoded);
            lemma_first_unit(sv, j as int, t);
            assert(matches_at(sv, j + unit_len, str_close(t.drop_first())));
            assert(out@ == mid + t.drop_first());
            assert(out@ =~= old(out)@ + t);
            lemma_escape_first(t);
        }
    }
    r2
}

/// No escape unit of any field starts at `j` when the reader has just
/// refused the text there; spelled out for each way of refusing.
proof fn reject_unit(sv: Seq<char>, j: int, t: Seq<char>, n: int)
    requires
        matches_at(sv, j, str_close(t)),
        n == sv.len(),
        0 <= j < n,
        sv[j] == '\\',
    ensures
        t.len() > 0,
        matches_at(sv, j, esc(t[0])),
        esc(t[0])[0] == '\\',
        esc(t[0]).len() >= 2,
        j + 2 <= n,
        sv[j + 1] == esc(t[0])[1],
        esc(t[0]).len() == 6 ==> j + 6 <= n && sv[j + 2] == '0' && sv[j + 3] == '0' && sv[j + 4]
            == hex_char(t[0] as u32 as int / 16) && sv[j + 5] == hex_char(
            t[0] as u32 as int % 16,
        ) && (t[0] as u32) < 32,
{
    if t.len() == 0 {
        lemma_matches_first(sv, j, str_close(t));
        assert(sv[j] == '"');
        assert(false);
    }
    lemma_first_unit(sv, j, t);
    let t0 = t[0];
    if esc(t0).len() == 1 {
        assert(esc(t0)[0] == t0);
        assert(t0 == '\\');
        assert(false);
    }
}

/// Read a quoted string field, undoing the escaping.  Exactly the
/// texts `json_string` emits are read back, and to the very string
/// they were written from.
fn parse_json_string(s: &str, n: usize, i: usize) -> (r: Option<(String, usize)>)
    requires
        n == s@.len(),
        i <= n,
    ensures
        match r {
            Some(vj) => {
                &&& matches_at(s@, i as int, json_string(vj.0@))
                &&& vj.1 == i + json_string(vj.0@).len()
            },
            None => true,
        },
        forall|t: Seq<char>| #[trigger]
            matches_at(s@, i as int, json_string(t)) ==> match r {
                Some(vj) => vj.0@ == t && vj.1 == i + json_string(t).len(),
                None => false,
            },
{
    let ghost sv = s@;
    proof {
        reveal_strlit("\"");
        assert forall|t: Seq<char>| #[trigger]
            matches_at(sv, i as int, json_string(t)) implies matches_at(sv, i as int, "\""@)
            && matches_at(sv, i + 1, str_close(t)) by {
            assert((seq!['"'] + (escape_seq(t) + seq!['"'])) =~= json_string(t));
            lemma_matches_split(sv, i as int, seq!['"'], escape_seq(t) + seq!['"']);
            assert(sv.subrange(i as int, i + 1) =~= "\""@);
        }
    }
    let opened = parse_lit(s, n, i, "\"");
    let p = match opened {
        Some(p) => p,
        None => {
            return None;
        },
    };
    let mut out = String::new();
    let r2 = parse_str_chars(s, n, p, &mut out);
    match r2 {
        Some(e) => {
            proof {
                let t = choose|t: Seq<char>|
                    out@ == Seq::<char>::empty() + t && matches_at(
                        sv,
                        p as int,
                        #[trigger] str_close(t),
                    ) && e == p + str_close(t).len();
                assert(out@ =~= t);
                assert(p as int == i + 1);
                assert(sv.subrange(i as int, i + 1) =~= seq!['"']);
                assert(matches_at(sv, i as int, seq!['"']));
                lemma_matches_join(sv, i as int, seq!['"'], str_close(t));
                assert((seq!['"'] + str_close(t)) =~= json_string(t));
                assert(matches_at(sv, i as int, json_string(t)));
                assert(e == i + json_string(t).len());
                assert(matches_at(sv, i as int, json_string(out@)));
            }
            Some((out, e))
        },
        None => None,
    }
}

/// Read a u32 field (the record's numbers all fit a u32).
fn parse_json_u32(s: &str, n: usize, i: usize) -> (r: Option<(u32, usize)>)
    requires
        n == s@.len(),
        i <= n,
    ensures
        match r {
            Some(vj) => {
                &&& matches_at(s@, i as int, spec_dec(vj.0 as nat))
                &&& vj.1 == i + spec_dec(vj.0 as nat).len()
                &&& digit_boundary(s@, vj.1 as int)
            },
            None => true,
        },
        forall|m: u32|
            #[trigger] matches_at(s@, i as int, spec_dec(m as nat)) && digit_boundary(
                s@,
                i + spec_dec(m as nat).len(),
            ) ==> match r {
                Some(vj) => vj.0 == m && vj.1 == i + spec_dec(m as nat).len(),
                None => false,
            },
{
    let ghost sv = s@;
    let r0 = parse_u64_at(s, n, i);
    let result: Option<(u32, usize)> = match r0 {
        None => None,
        Some((v, j)) => {
            // only the canonical rendering is accepted: no leading zero
            if v <= 0xffff_ffff && !(j > i + 1 && s.get_char(i) == '0') {
                proof {
                    let run = sv.subrange(i as int, j as int);
                    assert(run[0] == sv[i as int]);
                    crate::digits::lemma_canonical_digits(run);
                }
                Some((v as u32, j))
            } else {
                None
            }
        },
    };
    proof {
        assert forall|m: u32|
            #[trigger] matches_at(sv, i as int, spec_dec(m as nat)) && digit_boundary(
                sv,
                i + spec_dec(m as nat).len(),
            ) implies match result {
            Some(vj) => vj.0 == m && vj.1 == i + spec_dec(m as nat).len(),
            None => false,
        } by {
            assert(r0 == Some::<(u64, usize)>(
                (m as u64, (i + spec_dec(m as nat).len()) as usize),
            ));
            crate::digits::lemma_spec_dec_digits(m as nat);
            crate::digits::lemma_spec_dec_no_leading_zero(m as nat);
            assert(sv[i as int] == spec_dec(m as nat)[0]);
            if spec_dec(m as nat).len() > 1 {
                assert(sv[i as int] != '0');
            }
        }
    }
    result
}

pub proof fn lemma_matches_split(s: Seq<char>, i: int, a: Seq<char>, b: Seq<char>)
    requires
        matches_at(s, i, a + b),
    ensures
        matches_at(s, i, a),
        matches_at(s, i + a.len(), b),
{
    assert forall|k: int| 0 <= k < a.len() implies s.subrange(i, i + a.len())[k] == a[k] by {
        assert(s[i + k] == (a + b)[k]);
    }
    assert(s.subrange(i, i + a.len()) =~= a);
    assert forall|k: int| 0 <= k < b.len() implies s.subrange(
        i + a.len(),
        i + a.len() + b.len(),
    )[k] == b[k] by {
        assert(s[i + a.len() + k] == (a + b)[a.len() + k]);
    }
    assert(s.subrange(i + a.len(), i + a.len() + b.len()) =~= b);
}

pub proof fn lemma_matches_join(s: Seq<char>, i: int, a: Seq<char>, b: Seq<char>)
    requires
        matches_at(s, i, a),
        matches_at(s, i + a.len(), b),
    ensures
        matches_at(s, i, a + b),
{
    assert forall|k: int| 0 <= k < a.len() + b.len() implies s.subrange(
        i,
        i + (a + b).len(),
    )[k] == (a + b)[k] by {
        if k < a.len() {
            assert(s[i + k] == s.subrange(i, i + a.len())[k]);
        } else {
            assert(s[i + k] == s.subrange(i + a.len(), i + a.len() + b.len())[k - a.len()]);
        }
    }
    assert(s.subrange(i, i + (a + b).len()) =~= a + b);
}

pub proof fn lemma_matches_first(s: Seq<char>, i: int, t: Seq<char>)
    requires
        matches_at(s, i, t),
        t.len() > 0,
    ensures
        s[i] == t[0],
{
    assert(s.subrange(i, i + t.len())[0] == t[0]);
}

/// Read `null` or a number.
fn parse_json_opt_u32(s: &str, n: usize, i: usize) -> (r: Option<(Option<u32>, usize)>)
    requires
        n == s@.len(),
        i <= n,
    ensures
        match r {
            Some(vj) => {
                &&& matches_at(s@, i as int, json_opt_u32(vj.0))
                &&& vj.1 == i + json_opt_u32(vj.0).len()
                &&& (vj.0 is Some ==> digit_boundary(s@, vj.1 as int))
            },
            None => true,
        },
        forall|o: Option<u32>|
            #[trigger] matches_at(s@, i as int, json_opt_u32(o)) && (o is Some ==> digit_boundary(
                s@,
                i + json_opt_u32(o).len(),
            )) ==> match r {
                Some(vj) => vj.0 == o && vj.1 == i + json_opt_u32(o).len(),
                None => false,
            },
{
    let ghost sv = s@;
    let result: Option<(Option<u32>, usize)> = match parse_lit(s, n, i, "null") {
        Some(j) => Some((None, j)),
        None => match parse_json_u32(s, n, i) {
            Some((v, j)) => Some((Some(v), j)),
            None => None,
        },
    };
    proof {
        reveal_strlit("null");
        assert forall|o: Option<u32>|
            #[trigger] matches_at(sv, i as int, json_opt_u32(o)) && (o is Some ==> digit_boundary(
                sv,
                i + json_opt_u32(o).len(),
            )) implies match result {
            Some(vj) => vj.0 == o && vj.1 == i + json_opt_u32(o).len(),
            None => false,
        } by {
            match o {
                None => {
                    assert(matches_at(sv, i as int, "null"@));
                },
                Some(m) => {
                    crate::digits::lemma_spec_dec_digits(m as nat);
                    assert(sv[i as int] == spec_dec(m as nat)[0]);
                    assert(is_digit(sv[i as int]));
                    // a digit is not the letter `n`, so the null branch was not taken
                    if matches_at(sv, i as int, "null"@) {
                        assert(sv[i as int] == 'n');
                        assert(false);
                    }
                },
            }
        }
        if result is Some && result->Some_0.0 is Some {
            // the parsed number cannot also read as `null`
            let vj = result->Some_0;
            assert(sv[i as int] == spec_dec(vj.0->Some_0 as nat)[0]);
        }
    }
    result
}

/// Read `null` or a quoted string.
fn parse_json_opt_string(s: &str, n: usize, i: usize) -> (r: Option<(Option<String>, usize)>)
    requires
        n == s@.len(),
        i <= n,
    ensures
        match r {
            Some(vj) => {
                &&& matches_at(
                    s@,
                    i as int,
                    json_opt_string(crate::metainfo::view_opt_string(vj.0)),
                )
                &&& vj.1 == i + json_opt_string(crate::metainfo::view_opt_string(vj.0)).len()
            },
            None => true,
        },
        forall|o: Option<Seq<char>>|
            #[trigger] matches_at(s@, i as int, json_opt_string(o)) ==> match r {
                Some(vj) => crate::metainfo::view_opt_string(vj.0) == o && vj.1 == i
                    + json_opt_string(o).len(),
                None => false,
            },
{
    let ghost sv = s@;
    let result: Option<(Option<String>, usize)> = match parse_lit(s, n, i, "null") {
        Some(j) => Some((None, j)),
        None => match parse_json_string(s, n, i) {
            Some((v, j)) => Some((Some(v), j)),
            None => None,
        },
    };
    proof {
        reveal_strlit("null");
        assert forall|o: Option<Seq<char>>|
            #[trigger] matches_at(sv, i as int, json_opt_string(o)) implies match result {
            Some(vj) => crate::metainfo::view_opt_string(vj.0) == o && vj.1 == i + json_opt_string(
                o,
            ).len(),
            None => false,
        } by {
            match o {
                None => {
                    assert(matches_at(sv, i as int, "null"@));
                },
                Some(t) => {
                    assert(sv[i as int] == json_string(t)[0]);
                    assert(sv[i as int] == '"');
                    if matches_at(sv, i as int, "null"@) {
                        assert(sv[i as int] == 'n');
                        assert(false);
                    }
                    assert(matches_at(sv, i as int, json_string(t)));
                },
            }
        }
        if result is Some && result->Some_0.0 is Some {
            let vj = result->Some_0;
            assert(sv[i as int] == json_string(vj.0->Some_0@)[0]);
        }
    }
    result
}

/// Read `true` or `false`.
fn parse_json_bool(s: &str, n: usize, i: usize) -> (r: Option<(bool, usize)>)
    requires
        n == s@.len(),
        i <= n,
    ensures
        match r {
            Some(vj) => matches_at(s@, i as int, json_bool(vj.0)) && vj.1 == i + json_bool(
                vj.0,
            ).len(),
            None => true,
        },
        forall|b: bool| #[trigger]
            matches_at(s@, i as int, json_bool(b)) ==> match r {
                Some(vj) => vj.0 == b && vj.1 == i + json_bool(b).len(),
                None => false,
            },
{
    let ghost sv = s@;
    let result: Option<(bool, usize)> = match parse_lit(s, n, i, "true") {
        Some(j) => Some((true, j)),
        None => match parse_lit(s, n, i, "false") {
            Some(j) => Some((false, j)),
            None => None,
        },
    };
    proof {
        reveal_strlit("true");
        reveal_strlit("false");
        assert forall|b: bool| #[trigger]
            matches_at(sv, i as int, json_bool(b)) implies match result {
            Some(vj) => vj.0 == b && vj.1 == i + json_bool(b).len(),
            None => false,
        } by {
            if b {
                assert(matches_at(sv, i as int, "true"@));
            } else {
                assert(matches_at(sv, i as int, "false"@));
                if matches_at(sv, i as int, "true"@) {
                    lemma_matches_first(sv, i as int, "true"@);
                    lemma_matches_first(sv, i as int, "false"@);
                    assert(false);
                }
            }
        }
    }
    result
}

/// What follows the first element of a non-empty argument array: zero or
/// more `,"…"` items and the closing bracket.
pub open spec fn json_args_tail(a: Seq<Seq<char>>) -> Seq<char>
    decreases a.len(),
{
    if a.len() == 0 {
        "]"@
    } else {
        ","@ + json_string(a[0]) + json_args_tail(a.drop_first())
    }
}

/// The argument list as a JSON array of strings.
pub open spec fn json_args(a: Seq<Seq<char>>) -> Seq<char> {
    if a.len() == 0 {
        "[]"@
    } else {
        "["@ + json_string(a[0]) + json_args_tail(a.drop_first())
    }
}

pub open spec fn args_view(v: Seq<String>) -> Seq<Seq<char>> {
    v.map_values(|s: String| s@)
}

/// Append the argument array.
fn write_json_args(out: &mut String, args: &Vec<String>)
    ensures
        final(out)@ == old(out)@ + json_args(args_view(args@)),
{
    let ghost av = args_view(args@);
    if args.len() == 0 {
        out.append("[]");
        return;
    }
    out.append("[");
    proof {
        assert(av[0] == args@[0]@);
    }
    write_json_string(out, args[0].as_str());
    let mut i: usize = 1;
    while i < args.len()
        invariant
            1 <= i <= args.len(),
            av == args_view(args@),
            av.len() == args@.len(),
            out@ + json_args_tail(av.subrange(i as int, av.len() as int)) == old(out)@
                + json_args(av),
        decreases args.len() - i,
    {
        let ghost before = out@;
        let ghost rest = av.subrange(i as int, av.len() as int);
        out.append(",");
        proof {
            assert(av[i as int] == args@[i as int]@);
        }
        write_json_string(out, args[i].as_str());
        proof {
            assert(rest.drop_first() =~= av.subrange(i + 1, av.len() as int));
            assert(rest[0] == av[i as int]);
            assert(json_args_tail(rest) == ","@ + json_string(av[i as int]) + json_args_tail(
                av.subrange(i + 1, av.len() as int),
            ));
            assert(out@ + json_args_tail(av.subrange(i + 1, av.len() as int)) =~= before
                + json_args_tail(rest));
        }
        i = i + 1;
    }
    out.append("]");
    proof {
        assert(av.subrange(av.len() as int, av.len() as int) =~= Seq::<Seq<char>>::empty());
        assert(json_args_tail(Seq::<Seq<char>>::empty()) == "]"@);
        assert(final(out)@ == old(out)@ + json_args(av));
    }
}

/// Read the items after the first of a non-empty argument array.
#[verifier::rlimit(60)]
fn parse_json_args_tail(s: &str, n: usize, i: usize) -> (r: Option<(Vec<String>, usize)>)
    requires
        n == s@.len(),
        i <= n,
    ensures
        match r {
            Some(vj) => {
                &&& matches_at(s@, i as int, json_args_tail(args_view(vj.0@)))
                &&& vj.1 == i + json_args_tail(args_view(vj.0@)).len()
            },
            None => true,
        },
        forall|a: Seq<Seq<char>>|
            #[trigger] matches_at(s@, i as int, json_args_tail(a)) ==> match r {
                Some(vj) => args_view(vj.0@) == a && vj.1 == i + json_args_tail(a).len(),
                None => false,
            },
    decreases n - i,
{
    let ghost sv = s@;
    if let Some(j) = parse_lit(s, n, i, "]") {
        let empty_vec: Vec<String> = Vec::new();
        let ghost empty_view = empty_vec@;
        let result: Option<(Vec<String>, usize)> = Some((empty_vec, j));
        proof {
            reveal_strlit("]");
            reveal_strlit(",");
            let ghost empty_args = Seq::<Seq<char>>::empty();
            assert(args_view(empty_view) =~= empty_args);
            assert(json_args_tail(empty_args) == "]"@);
            assert forall|a: Seq<Seq<char>>|
                #[trigger] matches_at(sv, i as int, json_args_tail(a)) implies a
                =~= empty_args by {
                if a.len() > 0 {
                    lemma_matches_first(sv, i as int, json_args_tail(a));
                    lemma_matches_first(sv, i as int, "]"@);
                    assert(json_args_tail(a)[0] == (","@ + json_string(a[0]) + json_args_tail(
                        a.drop_first(),
                    ))[0]);
                    assert(json_args_tail(a)[0] == ',');
                    assert(false);
                }
            }
        }
        return result;
    }
    let comma = parse_lit(s, n, i, ",");
    if comma.is_none() {
        proof {
            reveal_strlit("]");
            reveal_strlit(",");
            assert forall|a: Seq<Seq<char>>|
                #[trigger] matches_at(sv, i as int, json_args_tail(a)) implies false by {
                if a.len() == 0 {
                    assert(matches_at(sv, i as int, "]"@));
                } else {
                    assert((","@ + (json_string(a[0]) + json_args_tail(a.drop_first()))) =~= (","@
                        + json_string(a[0]) + json_args_tail(a.drop_first())));
                    lemma_matches_split(sv, i as int, ","@, json_string(a[0]) + json_args_tail(
                        a.drop_first(),
                    ));
                    assert(matches_at(sv, i as int, ","@));
                }
            }
        }
        return None;
    }
    let p1 = match comma {
        Some(p) => p,
        None => unreached(),
    };
    let first = parse_json_string(s, n, p1);
    proof {
        reveal_strlit(",");
        assert forall|a: Seq<Seq<char>>|
            #[trigger] matches_at(sv, i as int, json_args_tail(a)) implies a.len()
            > 0 && matches_at(sv, p1 as int, json_string(a[0])) && matches_at(
            sv,
            p1 + json_string(a[0]).len(),
            json_args_tail(a.drop_first()),
        ) by {
            if a.len() == 0 {
                lemma_matches_first(sv, i as int, json_args_tail(a));
                lemma_matches_first(sv, i as int, "]"@);
                // a non-empty tail begins with a comma, not a bracket
                assert(sv[i as int] == ']');
                assert(!matches_at(sv, i as int, ","@));
                lemma_matches_first(sv, i as int, ","@);
                assert(false);
            } else {
                assert((","@ + (json_string(a[0]) + json_args_tail(a.drop_first()))) =~= (","@
                    + json_string(a[0]) + json_args_tail(a.drop_first())));
                lemma_matches_split(sv, i as int, ","@, json_string(a[0]) + json_args_tail(
                    a.drop_first(),
                ));
                lemma_matches_split(
                    sv,
                    i + 1,
                    json_string(a[0]),
                    json_args_tail(a.drop_first()),
                );
                assert(","@.len() == 1);
            }
        }
    }
    match first {
        None => None,
        Some((v0, p2)) => {
            match parse_json_args_tail(s, n, p2) {
                None => None,
                Some((mut items, j)) => {
                    let ghost prev = items@;
                    items.insert(0, v0);
                    proof {
                        reveal_strlit(",");
                        let av = args_view(items@);
                        assert(items@.drop_first() =~= prev);
                        assert(av.drop_first() =~= args_view(prev));
                        assert(av[0] == v0@);
                        assert(json_args_tail(av) == ","@ + json_string(v0@) + json_args_tail(
                            args_view(prev),
                        ));
                        lemma_matches_join(
                            sv,
                            p1 as int,
                            json_string(v0@),
                            json_args_tail(args_view(prev)),
                        );
                        lemma_matches_join(
                            sv,
                            i as int,
                            ","@,
                            json_string(v0@) + json_args_tail(args_view(prev)),
                        );
                        assert((","@ + (json_string(v0@) + json_args_tail(args_view(prev))))
                            =~= json_args_tail(av));
                        assert(matches_at(sv, i as int, json_args_tail(av)));
                        assert(j == i + json_args_tail(av).len());
                        assert forall|a: Seq<Seq<char>>|
                            #[trigger] matches_at(
                                sv,
                                i as int,
                                json_args_tail(a),
                            ) implies args_view(items@) == a && j == i + json_args_tail(
                            a,
                        ).len() by {
                            assert(matches_at(sv, p1 as int, json_string(a[0])));
                            assert(v0@ == a[0]);
                            assert(matches_at(
                                sv,
                                p2 as int,
                                json_args_tail(a.drop_first()),
                            ));
                            assert(args_view(prev) == a.drop_first());
                            let av2 = args_view(items@);
                            assert(av2.len() == a.len());
                            assert forall|k: int| 0 <= k < a.len() implies av2[k] == a[k] by {
                                if k > 0 {
                                    assert(av2[k] == av2.drop_first()[k - 1]);
                                    assert(av2.drop_first()[k - 1] == args_view(prev)[k - 1]);
                                    assert(a.drop_first()[k - 1] == a[k]);
                                }
                            }
                            assert(args_view(items@) =~= a);
                        }
                    }
                    Some((items, j))
                },
            }
        },
    }
}

/// Read the argument array.
#[verifier::rlimit(60)]
fn parse_json_args(s: &str, n: usize, i: usize) -> (r: Option<(Vec<String>, usize)>)
    requires
        n == s@.len(),
        i <= n,
    ensures
        match r {
            Some(vj) => {
                &&& matches_at(s@, i as int, json_args(args_view(vj.0@)))
                &&& vj.1 == i + json_args(args_view(vj.0@)).len()
            },
            None => true,
        },
        forall|a: Seq<Seq<char>>|
            #[trigger] matches_at(s@, i as int, json_args(a)) ==> match r {
                Some(vj) => args_view(vj.0@) == a && vj.1 == i + json_args(a).len(),
                None => false,
            },
{
    let ghost sv = s@;
    let opened = parse_lit(s, n, i, "[");
    proof {
        reveal_strlit("[");
        reveal_strlit("[]");
        reveal_strlit("]");
    }
    if opened.is_none() {
        proof {
            assert forall|a: Seq<Seq<char>>|
                #[trigger] matches_at(sv, i as int, json_args(a)) implies false by {
                lemma_matches_first(sv, i as int, json_args(a));
                if a.len() == 0 {
                    assert(json_args(a)[0] == '[');
                } else {
                    assert(json_args(a)[0] == ("["@ + json_string(a[0]) + json_args_tail(
                        a.drop_first(),
                    ))[0]);
                    assert(json_args(a)[0] == '[');
                }
                assert(sv[i as int] == '[');
                assert(json_args(a).len() >= 1);
                assert(i + 1 <= sv.len());
                assert(sv.subrange(i as int, i + 1) =~= "["@);
                assert(matches_at(sv, i as int, "["@));
                assert(false);
            }
        }
        return None;
    }
    let p1 = match opened {
        Some(p) => p,
        None => unreached(),
    };
    if let Some(j) = parse_lit(s, n, p1, "]") {
        let empty_vec: Vec<String> = Vec::new();
        let ghost empty_view = empty_vec@;
        let result: Option<(Vec<String>, usize)> = Some((empty_vec, j));
        proof {
            reveal_strlit("[");
            reveal_strlit("]");
            reveal_strlit("[]");
            assert(args_view(empty_view) =~= Seq::<Seq<char>>::empty());
            assert(matches_at(sv, i as int, "["@) && matches_at(sv, p1 as int, "]"@));
            lemma_matches_join(sv, i as int, "["@, "]"@);
            assert(("["@ + "]"@) =~= "[]"@);
            assert forall|a: Seq<Seq<char>>|
                #[trigger] matches_at(sv, i as int, json_args(a)) implies a
                =~= Seq::<Seq<char>>::empty() by {
                if a.len() > 0 {
                    assert(("["@ + (json_string(a[0]) + json_args_tail(a.drop_first()))) =~= (
                    json_args(a)));
                    lemma_matches_split(sv, i as int, "["@, json_string(a[0]) + json_args_tail(
                        a.drop_first(),
                    ));
                    lemma_matches_split(
                        sv,
                        i + 1,
                        json_string(a[0]),
                        json_args_tail(a.drop_first()),
                    );
                    lemma_matches_first(sv, p1 as int, json_string(a[0]));
                    lemma_matches_first(sv, p1 as int, "]"@);
                    assert(json_string(a[0])[0] == '"');
                    assert(false);
                }
            }
        }
        return result;
    }
    proof {
        assert forall|a: Seq<Seq<char>>|
            #[trigger] matches_at(sv, i as int, json_args(a)) implies a.len() > 0
            && matches_at(sv, p1 as int, json_string(a[0])) && matches_at(
            sv,
            p1 + json_string(a[0]).len(),
            json_args_tail(a.drop_first()),
        ) by {
            if a.len() == 0 {
                assert(matches_at(sv, i as int, "[]"@));
                assert(("["@ + "]"@) =~= "[]"@);
                lemma_matches_split(sv, i as int, "["@, "]"@);
                assert(matches_at(sv, p1 as int, "]"@));
                assert(false);
            } else {
                assert(("["@ + (json_string(a[0]) + json_args_tail(a.drop_first()))) =~= (
                json_args(a)));
                lemma_matches_split(sv, i as int, "["@, json_string(a[0]) + json_args_tail(
                    a.drop_first(),
                ));
                lemma_matches_split(sv, i + 1, json_string(a[0]), json_args_tail(a.drop_first()));
            }
        }
    }
    match parse_json_string(s, n, p1) {
        None => None,
        Some((v0, p2)) => {
            match parse_json_args_tail(s, n, p2) {
                None => None,
                Some((mut items, j)) => {
                    let ghost prev = items@;
                    items.insert(0, v0);
                    proof {
                        let av = args_view(items@);
                        assert(items@.drop_first() =~= prev);
                        assert(av.drop_first() =~= args_view(prev));
                        assert(av[0] == v0@);
                        lemma_matches_join(
                            sv,
                            p1 as int,
                            json_string(v0@),
                            json_args_tail(args_view(prev)),
                        );
                        lemma_matches_join(
                            sv,
                            i as int,
                            "["@,
                            json_string(v0@) + json_args_tail(args_view(prev)),
                        );
                        assert(("["@ + (json_string(v0@) + json_args_tail(args_view(prev))))
                            =~= json_args(av));
                        assert(matches_at(sv, i as int, json_args(av)));
                        assert(j == i + json_args(av).len());
                        assert forall|a: Seq<Seq<char>>|
                            #[trigger] matches_at(
                                sv,
                                i as int,
                                json_args(a),
                            ) implies args_view(items@) == a && j == i + json_args(a).len() by {
                            assert(matches_at(sv, p1 as int, json_string(a[0])));
                            assert(v0@ == a[0]);
                            assert(matches_at(
                                sv,
                                p2 as int,
                                json_args_tail(a.drop_first()),
                            ));
                            assert(args_view(prev) == a.drop_first());
                            let av2 = args_view(items@);
                            assert(av2.len() == a.len());
                            assert forall|k: int| 0 <= k < a.len() implies av2[k] == a[k] by {
                                if k > 0 {
                                    assert(av2[k] == av2.drop_first()[k - 1]);
                                    assert(av2.drop_first()[k - 1] == args_view(prev)[k - 1]);
                                    assert(a.drop_first()[k - 1] == a[k]);
                                }
                            }
                            assert(args_view(items@) =~= a);
                        }
                    }
                    Some((items, j))
                },
            }
        },
    }
}

/// The concatenation of a list of segments; objects below are described
/// as such lists, one segment per label or field.
pub open spec fn cat(parts: Seq<Seq<char>>) -> Seq<char>
    decreases parts.len(),
{
    if parts.len() == 0 {
        Seq::empty()
    } else {
        cat(parts.drop_last()) + parts.last()
    }
}

/// Length of the first `k` segments together.
pub open spec fn cat_upto(parts: Seq<Seq<char>>, k: int) -> int {
    cat(parts.subrange(0, k)).len() as int
}

pub proof fn lemma_cat_step(parts: Seq<Seq<char>>, k: int)
    requires
        0 <= k < parts.len(),
    ensures
        cat(parts.subrange(0, k + 1)) == cat(parts.subrange(0, k)) + parts[k],
        cat_upto(parts, k + 1) == cat_upto(parts, k) + parts[k].len(),
        cat_upto(parts, 0) == 0,
{
    assert(parts.subrange(0, k + 1).drop_last() =~= parts.subrange(0, k));
    assert(parts.subrange(0, k + 1).last() == parts[k]);
    assert(parts.subrange(0, 0) =~= Seq::<Seq<char>>::empty());
}

pub proof fn lemma_cat_decompose(parts: Seq<Seq<char>>, k: int)
    requires
        0 <= k <= parts.len(),
    ensures
        cat(parts) == cat(parts.subrange(0, k)) + cat(parts.subrange(k, parts.len() as int)),
    decreases parts.len(),
{
    let len = parts.len() as int;
    if k == len {
        assert(parts.subrange(0, k) =~= parts);
        assert(parts.subrange(k, len) =~= Seq::<Seq<char>>::empty());
        assert(cat(parts) =~= cat(parts) + Seq::<char>::empty());
    } else {
        let dl = parts.drop_last();
        lemma_cat_decompose(dl, k);
        assert(dl.subrange(0, k) =~= parts.subrange(0, k));
        assert(parts.subrange(k, len).drop_last() =~= dl.subrange(k, len - 1));
        assert(parts.subrange(k, len).last() == parts.last());
        assert(parts.subrange(k, len).len() > 0);
        assert(cat(parts.subrange(k, len)) == cat(dl.subrange(k, len - 1)) + parts.last());
        assert((cat(parts.subrange(0, k)) + cat(dl.subrange(k, len - 1))) + parts.last() =~= cat(
            parts.subrange(0, k),
        ) + (cat(dl.subrange(k, len - 1)) + parts.last()));
    }
}

/// Where a text matches a list of segments, each segment stands at the
/// sum of the lengths before it.
pub proof fn lemma_cat_elem(s: Seq<char>, i: int, parts: Seq<Seq<char>>, k: int)
    requires
        matches_at(s, i, cat(parts)),
        0 <= k < parts.len(),
    ensures
        matches_at(s, i + cat_upto(parts, k), parts[k]),
        cat_upto(parts, k + 1) == cat_upto(parts, k) + parts[k].len(),
        cat_upto(parts, 0) == 0,
        i + cat_upto(parts, k + 1) <= s.len(),
{
    let len = parts.len() as int;
    lemma_cat_decompose(parts, k);
    lemma_matches_split(s, i, cat(parts.subrange(0, k)), cat(parts.subrange(k, len)));
    let rest = parts.subrange(k, len);
    lemma_cat_decompose(rest, 1);
    assert(rest.subrange(1, rest.len() as int) =~= parts.subrange(k + 1, len));
    assert(cat(rest.subrange(0, 1)) =~= rest[0]) by {
        assert(rest.subrange(0, 1).drop_last() =~= Seq::<Seq<char>>::empty());
        assert(rest.subrange(0, 1).last() == rest[0]);
        assert(cat(Seq::<Seq<char>>::empty()) =~= Seq::<char>::empty());
    }
    assert(rest[0] == parts[k]);
    lemma_matches_split(
        s,
        i + cat_upto(parts, k),
        parts[k],
        cat(parts.subrange(k + 1, len)),
    );
    lemma_cat_step(parts, k);
}

/// The running output of an object writer: appending segment `k` to the
/// first `k` segments yields the first `k + 1`.
pub proof fn lemma_cat_accum(base: Seq<char>, parts: Seq<Seq<char>>, k: int)
    requires
        0 <= k < parts.len(),
    ensures
        (base + cat(parts.subrange(0, k))) + parts[k] == base + cat(parts.subrange(0, k + 1)),
        cat_upto(parts, 0) == 0,
{
    lemma_cat_step(parts, k);
    assert((base + cat(parts.subrange(0, k))) + parts[k] =~= base + (cat(parts.subrange(0, k))
        + parts[k]));
}

/// The nine labelled fields of a command specification, in the fixed
/// order the store writes them.
pub open spec fn command_parts(c: RunCommandView) -> Seq<Seq<char>> {
    seq![
        "{\"cpu\":"@,
        json_opt_u32(c.cpu),
        ",\"mem\":"@,
        json_opt_string(c.mem),
        ",\"volume\":"@,
        json_opt_string(c.volume),
        ",\"detach\":"@,
        json_bool(c.detach),
        ",\"net\":"@,
        json_opt_string(c.net),
        ",\"image\":"@,
        json_string(c.image),
        ",\"command\":"@,
        json_string(c.command),
        ",\"args\":"@,
        json_args(c.args),
        "}"@,
    ]
}

pub open spec fn json_command(c: RunCommandView) -> Seq<char> {
    cat(command_parts(c))
}

pub open spec fn json_status(st: Status) -> Seq<char> {
    if st == Status::Running {
        "\"running\""@
    } else {
        "\"exited\""@
    }
}

/// The four labelled fields of a metainfo record, in the fixed order the
/// store writes them.
pub open spec fn meta_parts(m: MetainfoView) -> Seq<Seq<char>> {
    seq![
        "{\"pid\":"@,
        json_opt_u32(m.pid),
        ",\"id\":"@,
        json_string(m.id),
        ",\"command\":"@,
        json_command(m.command),
        ",\"status\":"@,
        json_status(m.status),
        "}"@,
    ]
}

/// One metainfo record as one compact JSON document.
pub open spec fn json_meta(m: MetainfoView) -> Seq<char> {
    cat(meta_parts(m))
}

fn write_json_command(out: &mut String, c: &RunCommand)
    ensures
        final(out)@ == old(out)@ + json_command(c@),
{
    let ghost base = out@;
    let ghost parts = command_parts(c@);
    out.append("{\"cpu\":");
    proof {
        lemma_cat_accum(base, parts, 0);
        assert(cat(parts.subrange(0, 0)) =~= Seq::<char>::empty());
        assert(base + cat(parts.subrange(0, 0)) =~= base);
    }
    write_json_opt_u32(out, &c.cpu);
    proof {
        lemma_cat_accum(base, parts, 1);
    }
    out.append(",\"mem\":");
    proof {
        lemma_cat_accum(base, parts, 2);
    }
    write_json_opt_string(out, &c.mem);
    proof {
        lemma_cat_accum(base, parts, 3);
    }
    out.append(",\"volume\":");
    proof {
        lemma_cat_accum(base, parts, 4);
    }
    write_json_opt_string(out, &c.volume);
    proof {
        lemma_cat_accum(base, parts, 5);
    }
    out.append(",\"detach\":");
    proof {
        lemma_cat_accum(base, parts, 6);
    }
    write_json_bool(out, c.detach);
    proof {
        lemma_cat_accum(base, parts, 7);
    }
    out.append(",\"net\":");
    proof {
        lemma_cat_accum(base, parts, 8);
    }
    write_json_opt_string(out, &c.net);
    proof {
        lemma_cat_accum(base, parts, 9);
    }
    out.append(",\"image\":");
    proof {
        lemma_cat_accum(base, parts, 10);
    }
    write_json_string(out, c.image.as_str());
    proof {
        lemma_cat_accum(base, parts, 11);
    }
    out.append(",\"command\":");
    proof {
        lemma_cat_accum(base, parts, 12);
    }
    write_json_string(out, c.command.as_str());
    proof {
        lemma_cat_accum(base, parts, 13);
    }
    out.append(",\"args\":");
    proof {
        lemma_cat_accum(base, parts, 14);
    }
    write_json_args(out, &c.args);
    proof {
        lemma_cat_accum(base, parts, 15);
    }
    out.append("}");
    proof {
        lemma_cat_accum(base, parts, 16);
        assert(parts.subrange(0, 17) =~= parts);
    }
}

/// Render a record as the store's JSON document.
pub fn to_json(m: &Metainfo) -> (r: String)
    ensures
        r@ == json_meta(m@),
{
    let mut out = String::new();
    let ghost base = out@;
    let ghost parts = meta_parts(m@);
    out.append("{\"pid\":");
    proof {
        lemma_cat_accum(base, parts, 0);
        assert(cat(parts.subrange(0, 0)) =~= Seq::<char>::empty());
        assert(base + cat(parts.subrange(0, 0)) =~= base);
    }
    write_json_opt_u32(&mut out, &m.pid);
    proof {
        lemma_cat_accum(base, parts, 1);
    }
    out.append(",\"id\":");
    proof {
        lemma_cat_accum(base, parts, 2);
    }
    write_json_string(&mut out, m.id.as_str());
    proof {
        lemma_cat_accum(base, parts, 3);
    }
    out.append(",\"command\":");
    proof {
        lemma_cat_accum(base, parts, 4);
    }
    write_json_command(&mut out, &m.command);
    proof {
        lemma_cat_accum(base, parts, 5);
    }
    out.append(",\"status\":");
    proof {
        lemma_cat_accum(base, parts, 6);
    }
    if is_running_status(m) {
        out.append("\"running\"");
    } else {
        out.append("\"exited\"");
    }
    proof {
        lemma_cat_accum(base, parts, 7);
    }
    out.append("}");
    proof {
        lemma_cat_accum(base, parts, 8);
        assert(parts.subrange(0, 9) =~= parts);
        assert(base =~= Seq::<char>::empty());
        assert(base + cat(parts) =~= cat(parts));
    }
    out
}

fn is_running_status(m: &Metainfo) -> (r: bool)
    ensures
        r == (m@.status == Status::Running),
{
    m.status == Status::Running
}

pub proof fn lemma_matches_index(s: Seq<char>, i: int, t: Seq<char>, k: int)
    requires
        matches_at(s, i, t),
        0 <= k < t.len(),
    ensures
        s[i + k] == t[k],
{
    assert(s.subrange(i, i + t.len())[k] == t[k]);
}

/// Read `"running"` or `"exited"`.
fn parse_json_status(s: &str, n: usize, i: usize) -> (r: Option<(Status, usize)>)
    requires
        n == s@.len(),
        i <= n,
    ensures
        match r {
            Some(vj) => matches_at(s@, i as int, json_status(vj.0)) && vj.1 == i + json_status(
                vj.0,
            ).len(),
            None => true,
        },
        forall|st: Status| #[trigger]
            matches_at(s@, i as int, json_status(st)) ==> match r {
                Some(vj) => vj.0 == st && vj.1 == i + json_status(st).len(),
                None => false,
            },
{
    let ghost sv = s@;
    let result: Option<(Status, usize)> = match parse_lit(s, n, i, "\"running\"") {
        Some(j) => Some((Status::Running, j)),
        None => match parse_lit(s, n, i, "\"exited\"") {
            Some(j) => Some((Status::Exited, j)),
            None => None,
        },
    };
    proof {
        reveal_strlit("\"running\"");
        reveal_strlit("\"exited\"");
        assert forall|st: Status| #[trigger]
            matches_at(sv, i as int, json_status(st)) implies match result {
            Some(vj) => vj.0 == st && vj.1 == i + json_status(st).len(),
            None => false,
        } by {
            if st == Status::Running {
                assert(matches_at(sv, i as int, "\"running\""@));
            } else {
                assert(matches_at(sv, i as int, "\"exited\""@));
                if matches_at(sv, i as int, "\"running\""@) {
                    lemma_matches_index(sv, i as int, "\"running\""@, 1);
                    lemma_matches_index(sv, i as int, "\"exited\""@, 1);
                    assert(false);
                }
            }
        }
    }
    result
}

/// The first half of a command object: cpu, mem, volume and detach.
pub open spec fn head_parts(
    cpu: Option<u32>,
    mem: Option<Seq<char>>,
    volume: Option<Seq<char>>,
    detach: bool,
) -> Seq<Seq<char>> {
    seq![
        "{\"cpu\":"@,
        json_opt_u32(cpu),
        ",\"mem\":"@,
        json_opt_string(mem),
        ",\"volume\":"@,
        json_opt_string(volume),
        ",\"detach\":"@,
        json_bool(detach),
    ]
}

/// The second half of a command object: net, image, command and args.
pub open spec fn tail_parts(
    net: Option<Seq<char>>,
    image: Seq<char>,
    command: Seq<char>,
    args: Seq<Seq<char>>,
) -> Seq<Seq<char>> {
    seq![
        ",\"net\":"@,
        json_opt_string(net),
        ",\"image\":"@,
        json_string(image),
        ",\"command\":"@,
        json_string(command),
        ",\"args\":"@,
        json_args(args),
        "}"@,
    ]
}

/// A command object is its head followed by its tail.
proof fn lemma_command_split(c: RunCommandView)
    ensures
        json_command(c) == cat(head_parts(c.cpu, c.mem, c.volume, c.detach)) + cat(
            tail_parts(c.net, c.image, c.command, c.args),
        ),
{
    let parts = command_parts(c);
    lemma_cat_decompose(parts, 8);
    assert(parts.subrange(0, 8) =~= head_parts(c.cpu, c.mem, c.volume, c.detach));
    assert(parts.subrange(8, 17) =~= tail_parts(c.net, c.image, c.command, c.args));
}

/// Where a command head stands at `i`, each of its segments stands at
/// its own offset, and a configured cpu number is followed by a comma.
proof fn head_facts(
    sv: Seq<char>,
    i: int,
    cpu: Option<u32>,
    mem: Option<Seq<char>>,
    volume: Option<Seq<char>>,
    detach: bool,
)
    requires
        matches_at(sv, i, cat(head_parts(cpu, mem, volume, detach))),
    ensures
        forall|k: int|
            0 <= k < 8 ==> matches_at(
                sv,
                i + cat_upto(head_parts(cpu, mem, volume, detach), k),
                #[trigger] head_parts(cpu, mem, volume, detach)[k],
            ),
        cat_upto(head_parts(cpu, mem, volume, detach), 0) == 0,
        cat_upto(head_parts(cpu, mem, volume, detach), 1) == cat_upto(
            head_parts(cpu, mem, volume, detach),
            0,
        ) + head_parts(cpu, mem, volume, detach)[0].len(),
        cat_upto(head_parts(cpu, mem, volume, detach), 2) == cat_upto(
            head_parts(cpu, mem, volume, detach),
            1,
        ) + head_parts(cpu, mem, volume, detach)[1].len(),
        cat_upto(head_parts(cpu, mem, volume, detach), 3) == cat_upto(
            head_parts(cpu, mem, volume, detach),
            2,
        ) + head_parts(cpu, mem, volume, detach)[2].len(),
        cat_upto(head_parts(cpu, mem, volume, detach), 4) == cat_upto(
            head_parts(cpu, mem, volume, detach),
            3,
        ) + head_parts(cpu, mem, volume, detach)[3].len(),
        cat_upto(head_parts(cpu, mem, volume, detach), 5) == cat_upto(
            head_parts(cpu, mem, volume, detach),
            4,
        ) + head_parts(cpu, mem, volume, detach)[4].len(),
        cat_upto(head_parts(cpu, mem, volume, detach), 6) == cat_upto(
            head_parts(cpu, mem, volume, detach),
            5,
        ) + head_parts(cpu, mem, volume, detach)[5].len(),
        cat_upto(head_parts(cpu, mem, volume, detach), 7) == cat_upto(
            head_parts(cpu, mem, volume, detach),
            6,
        ) + head_parts(cpu, mem, volume, detach)[6].len(),
        cat_upto(head_parts(cpu, mem, volume, detach), 8) == cat_upto(
            head_parts(cpu, mem, volume, detach),
            7,
        ) + head_parts(cpu, mem, volume, detach)[7].len(),

        cat(head_parts(cpu, mem, volume, detach)).len() == cat_upto(
            head_parts(cpu, mem, volume, detach),
            8,
        ),
        cpu is Some ==> digit_boundary(
            sv,
            i + cat_upto(head_parts(cpu, mem, volume, detach), 2),
        ),
{
    let parts = head_parts(cpu, mem, volume, detach);
    assert forall|k: int| 0 <= k < 8 implies matches_at(
        sv,
        i + cat_upto(parts, k),
        #[trigger] parts[k],
    ) by {
        lemma_cat_elem(sv, i, parts, k);
    }
    lemma_cat_step(parts, 0);
    lemma_cat_step(parts, 1);
    lemma_cat_step(parts, 2);
    lemma_cat_step(parts, 3);
    lemma_cat_step(parts, 4);
    lemma_cat_step(parts, 5);
    lemma_cat_step(parts, 6);
    lemma_cat_step(parts, 7);
    assert(parts.subrange(0, 8) =~= parts);
    if cpu is Some {
        reveal_strlit(",\"mem\":");
        lemma_cat_elem(sv, i, parts, 2);
        lemma_matches_first(sv, i + cat_upto(parts, 2), parts[2]);
        assert(sv[i + cat_upto(parts, 2)] == ',');
    }
}

/// Where a command tail stands at `i`, each of its segments stands at
/// its own offset.
proof fn tail_facts(
    sv: Seq<char>,
    i: int,
    net: Option<Seq<char>>,
    image: Seq<char>,
    command: Seq<char>,
    args: Seq<Seq<char>>,
)
    requires
        matches_at(sv, i, cat(tail_parts(net, image, command, args))),
    ensures
        forall|k: int|
            0 <= k < 9 ==> matches_at(
                sv,
                i + cat_upto(tail_parts(net, image, command, args), k),
                #[trigger] tail_parts(net, image, command, args)[k],
            ),
        cat_upto(tail_parts(net, image, command, args), 0) == 0,
        cat_upto(tail_parts(net, image, command, args), 1) == cat_upto(
            tail_parts(net, image, command, args),
            0,
        ) + tail_parts(net, image, command, args)[0].len(),
        cat_upto(tail_parts(net, image, command, args), 2) == cat_upto(
            tail_parts(net, image, command, args),
            1,
        ) + tail_parts(net, image, command, args)[1].len(),
        cat_upto(tail_parts(net, image, command, args), 3) == cat_upto(
            tail_parts(net, image, command, args),
            2,
        ) + tail_parts(net, image, command, args)[2].len(),
        cat_upto(tail_parts(net, image, command, args), 4) == cat_upto(
            tail_parts(net, image, command, args),
            3,
        ) + tail_parts(net, image, command, args)[3].len(),
        cat_upto(tail_parts(net, image, command, args), 5) == cat_upto(
            tail_parts(net, image, command, args),
            4,
        ) + tail_parts(net, image, command, args)[4].len(),
        cat_upto(tail_parts(net, image, command, args), 6) == cat_upto(
            tail_parts(net, image, command, args),
            5,
        ) + tail_parts(net, image, command, args)[5].len(),
        cat_upto(tail_parts(net, image, command, args), 7) == cat_upto(
            tail_parts(net, image, command, args),
            6,
        ) + tail_parts(net, image, command, args)[6].len(),
        cat_upto(tail_parts(net, image, command, args), 8) == cat_upto(
            tail_parts(net, image, command, args),
            7,
        ) + tail_parts(net, image, command, args)[7].len(),
        cat_upto(tail_parts(net, image, command, args), 9) == cat_upto(
            tail_parts(net, image, command, args),
            8,
        ) + tail_parts(net, image, command, args)[8].len(),

        cat(tail_parts(net, image, command, args)).len() == cat_upto(
            tail_parts(net, image, command, args),
            9,
        ),
{
    let parts = tail_parts(net, image, command, args);
    assert forall|k: int| 0 <= k < 9 implies matches_at(
        sv,
        i + cat_upto(parts, k),
        #[trigger] parts[k],
    ) by {
        lemma_cat_elem(sv, i, parts, k);
    }
    lemma_cat_step(parts, 0);
    lemma_cat_step(parts, 1);
    lemma_cat_step(parts, 2);
    lemma_cat_step(parts, 3);
    lemma_cat_step(parts, 4);
    lemma_cat_step(parts, 5);
    lemma_cat_step(parts, 6);
    lemma_cat_step(parts, 7);
    lemma_cat_step(parts, 8);
    assert(parts.subrange(0, 9) =~= parts);
}

/// Read the first half of a command object.
#[verifier::rlimit(100)]
fn parse_cmd_head(s: &str, n: usize, i: usize) -> (r: Option<
    ((Option<u32>, Option<String>, Option<String>, bool), usize),
>)
    requires
        n == s@.len(),
        i <= n,
    ensures
        match r {
            Some(vj) => {
                &&& matches_at(
                    s@,
                    i as int,
                    cat(
                        head_parts(
                            vj.0.0,
                            crate::metainfo::view_opt_string(vj.0.1),
                            crate::metainfo::view_opt_string(vj.0.2),
                            vj.0.3,
                        ),
                    ),
                )
                &&& vj.1 == i + cat(
                    head_parts(
                        vj.0.0,
                        crate::metainfo::view_opt_string(vj.0.1),
                        crate::metainfo::view_opt_string(vj.0.2),
                        vj.0.3,
                    ),
                ).len()
            },
            None => true,
        },
        forall|cpu: Option<u32>, mem: Option<Seq<char>>, volume: Option<Seq<char>>, detach: bool|
            #[trigger] matches_at(
                s@,
                i as int,
                cat(head_parts(cpu, mem, volume, detach)),
            ) ==> match r {
                Some(vj) => vj.0.0 == cpu && crate::metainfo::view_opt_string(vj.0.1) == mem
                    && crate::metainfo::view_opt_string(vj.0.2) == volume && vj.0.3 == detach
                    && vj.1 == i + cat(head_parts(cpu, mem, volume, detach)).len(),
                None => false,
            },
{
    let ghost sv = s@;
    let mut ok = true;
    let mut pos = i;
    let mut cpu: Option<u32> = None;
    let mut mem: Option<String> = None;
    let mut volume: Option<String> = None;
    let mut detach = false;

    let ghost q0 = pos;
    match parse_lit(s, n, pos, "{\"cpu\":") {
        Some(p) => pos = p,
        None => ok = false,
    }
    let ghost ok1 = ok;
    let ghost q1 = pos;
    if ok {
        match parse_json_opt_u32(s, n, pos) {
            Some((v, p)) => {
                cpu = v;
                pos = p;
            },
            None => ok = false,
        }
    }
    let ghost ok2 = ok;
    let ghost q2 = pos;
    if ok {
        match parse_lit(s, n, pos, ",\"mem\":") {
            Some(p) => pos = p,
            None => ok = false,
        }
    }
    let ghost ok3 = ok;
    let ghost q3 = pos;
    if ok {
        match parse_json_opt_string(s, n, pos) {
            Some((v, p)) => {
                mem = v;
                pos = p;
            },
            None => ok = false,
        }
    }
    let ghost ok4 = ok;
    let ghost q4 = pos;
    if ok {
        match parse_lit(s, n, pos, ",\"volume\":") {
            Some(p) => pos = p,
            None => ok = false,
        }
    }
    let ghost ok5 = ok;
    let ghost q5 = pos;
    if ok {
        match parse_json_opt_string(s, n, pos) {
            Some((v, p)) => {
                volume = v;
                pos = p;
            },
            None => ok = false,
        }
    }
    let ghost ok6 = ok;
    let ghost q6 = pos;
    if ok {
        match parse_lit(s, n, pos, ",\"detach\":") {
            Some(p) => pos = p,
            None => ok = false,
        }
    }
    let ghost ok7 = ok;
    let ghost q7 = pos;
    if ok {
        match parse_json_bool(s, n, pos) {
            Some((v, p)) => {
                detach = v;
                pos = p;
            },
            None => ok = false,
        }
    }
    let ghost ok8 = ok;
    let ghost q8 = pos;

    let result: Option<((Option<u32>, Option<String>, Option<String>, bool), usize)> = if ok {
        Some(((cpu, mem, volume, detach), pos))
    } else {
        None
    };
    proof {
        if ok {
            let vj = result->Some_0;
            let parts = head_parts(
                vj.0.0,
                crate::metainfo::view_opt_string(vj.0.1),
                crate::metainfo::view_opt_string(vj.0.2),
                vj.0.3,
            );
            assert(cat(parts.subrange(0, 0)) =~= Seq::<char>::empty());
            assert(sv.subrange(q0 as int, q0 as int) =~= Seq::<char>::empty());
            assert(matches_at(sv, q0 as int, cat(parts.subrange(0, 0))));
            lemma_cat_step(parts, 0);
            lemma_matches_join(sv, q0 as int, cat(parts.subrange(0, 0)), parts[0]);
            assert(q1 as int == q0 + cat_upto(parts, 1));
            lemma_cat_step(parts, 1);
            lemma_matches_join(sv, q0 as int, cat(parts.subrange(0, 1)), parts[1]);
            assert(q2 as int == q0 + cat_upto(parts, 2));
            lemma_cat_step(parts, 2);
            lemma_matches_join(sv, q0 as int, cat(parts.subrange(0, 2)), parts[2]);
            assert(q3 as int == q0 + cat_upto(parts, 3));
            lemma_cat_step(parts, 3);
            lemma_matches_join(sv, q0 as int, cat(parts.subrange(0, 3)), parts[3]);
            assert(q4 as int == q0 + cat_upto(parts, 4));
            lemma_cat_step(parts, 4);
            lemma_matches_join(sv, q0 as int, cat(parts.subrange(0, 4)), parts[4]);
            assert(q5 as int == q0 + cat_upto(parts, 5));
            lemma_cat_step(parts, 5);
            lemma_matches_join(sv, q0 as int, cat(parts.subrange(0, 5)), parts[5]);
            assert(q6 as int == q0 + cat_upto(parts, 6));
            lemma_cat_step(parts, 6);
            lemma_matches_join(sv, q0 as int, cat(parts.subrange(0, 6)), parts[6]);
            assert(q7 as int == q0 + cat_upto(parts, 7));
            lemma_cat_step(parts, 7);
            lemma_matches_join(sv, q0 as int, cat(parts.subrange(0, 7)), parts[7]);
            assert(q8 as int == q0 + cat_upto(parts, 8));
            assert(parts.subrange(0, 8) =~= parts);
            assert(matches_at(sv, i as int, cat(parts)));
        }
        assert forall|
            cpu_m: Option<u32>,
            mem_m: Option<Seq<char>>,
            volume_m: Option<Seq<char>>,
            detach_m: bool,
        |
            #[trigger] matches_at(
                sv,
                i as int,
                cat(head_parts(cpu_m, mem_m, volume_m, detach_m)),
            ) implies match result {
            Some(vj) => vj.0.0 == cpu_m && crate::metainfo::view_opt_string(vj.0.1) == mem_m
                && crate::metainfo::view_opt_string(vj.0.2) == volume_m && vj.0.3 == detach_m
                && vj.1 == i + cat(head_parts(cpu_m, mem_m, volume_m, detach_m)).len(),
            None => false,
        } by {
            head_facts(sv, i as int, cpu_m, mem_m, volume_m, detach_m);
            let parts = head_parts(cpu_m, mem_m, volume_m, detach_m);
            assert(parts[0] == "{\"cpu\":"@ && parts[2] == ",\"mem\":"@ && parts[4]
                == ",\"volume\":"@ && parts[6] == ",\"detach\":"@);
            assert(matches_at(sv, i + cat_upto(parts, 0), parts[0]));
            assert(matches_at(sv, i as int, "{\"cpu\":"@));
            assert(ok1 && q1 as int == i + cat_upto(parts, 1));
            assert(matches_at(sv, q1 as int, json_opt_u32(cpu_m)));
            assert(cpu_m is Some ==> digit_boundary(sv, q1 + json_opt_u32(cpu_m).len()));
            assert(ok2 && cpu == cpu_m && q2 as int == i + cat_upto(parts, 2));
            assert(matches_at(sv, q2 as int, ",\"mem\":"@));
            assert(ok3 && q3 as int == i + cat_upto(parts, 3));
            assert(matches_at(sv, q3 as int, json_opt_string(mem_m)));
            assert(ok4 && crate::metainfo::view_opt_string(mem) == mem_m && q4 as int == i
                + cat_upto(parts, 4));
            assert(matches_at(sv, q4 as int, ",\"volume\":"@));
            assert(ok5 && q5 as int == i + cat_upto(parts, 5));
            assert(matches_at(sv, q5 as int, json_opt_string(volume_m)));
            assert(ok6 && crate::metainfo::view_opt_string(volume) == volume_m && q6 as int == i
                + cat_upto(parts, 6));
            assert(matches_at(sv, q6 as int, ",\"detach\":"@));
            assert(ok7 && q7 as int == i + cat_upto(parts, 7));
            assert(matches_at(sv, q7 as int, json_bool(detach_m)));
            assert(ok8 && detach == detach_m && q8 as int == i + cat_upto(parts, 8));
            assert(ok);
        }
    }
    result
}

/// Read the second half of a command object.
#[verifier::rlimit(100)]
fn parse_cmd_tail(s: &str, n: usize, i: usize) -> (r: Option<
    ((Option<String>, String, String, Vec<String>), usize),
>)
    requires
        n == s@.len(),
        i <= n,
    ensures
        match r {
            Some(vj) => {
                &&& matches_at(
                    s@,
                    i as int,
                    cat(
                        tail_parts(
                            crate::metainfo::view_opt_string(vj.0.0),
                            vj.0.1@,
                            vj.0.2@,
                            args_view(vj.0.3@),
                        ),
                    ),
                )
                &&& vj.1 == i + cat(
                    tail_parts(
                        crate::metainfo::view_opt_string(vj.0.0),
                        vj.0.1@,
                        vj.0.2@,
                        args_view(vj.0.3@),
                    ),
                ).len()
            },
            None => true,
        },
        forall|net: Option<Seq<char>>, image: Seq<char>, command: Seq<char>, args: Seq<Seq<char>>|
            #[trigger] matches_at(s@, i as int, cat(tail_parts(net, image, command, args)))
                ==> match r {
                Some(vj) => crate::metainfo::view_opt_string(vj.0.0) == net && vj.0.1@ == image
                    && vj.0.2@ == command && args_view(vj.0.3@) == args && vj.1 == i + cat(
                    tail_parts(net, image, command, args),
                ).len(),
                None => false,
            },
{
    let ghost sv = s@;
    let mut ok = true;
    let mut pos = i;
    let mut net: Option<String> = None;
    let mut image = String::new();
    let mut command = String::new();
    let mut args: Vec<String> = Vec::new();

    let ghost q0 = pos;
    match parse_lit(s, n, pos, ",\"net\":") {
        Some(p) => pos = p,
        None => ok = false,
    }
    let ghost ok1 = ok;
    let ghost q1 = pos;
    if ok {
        match parse_json_opt_string(s, n, pos) {
            Some((v, p)) => {
                net = v;
                pos = p;
            },
            None => ok = false,
        }
    }
    let ghost ok2 = ok;
    let ghost q2 = pos;
    if ok {
        match parse_lit(s, n, pos, ",\"image\":") {
            Some(p) => pos = p,
            None => ok = false,
        }
    }
    let ghost ok3 = ok;
    let ghost q3 = pos;
    if ok {
        match parse_json_string(s, n, pos) {
            Some((v, p)) => {
                image = v;
                pos = p;
            },
            None => ok = false,
        }
    }
    let ghost ok4 = ok;
    let ghost q4 = pos;
    if ok {
        match parse_lit(s, n, pos, ",\"command\":") {
            Some(p) => pos = p,
            None => ok = false,
        }
    }
    let ghost ok5 = ok;
    let ghost q5 = pos;
    if ok {
        match parse_json_string(s, n, pos) {
            Some((v, p)) => {
                command = v;
                pos = p;
            },
            None => ok = false,
        }
    }
    let ghost ok6 = ok;
    let ghost q6 = pos;
    if ok {
        match parse_lit(s, n, pos, ",\"args\":") {
            Some(p) => pos = p,
            None => ok = false,
        }
    }
    let ghost ok7 = ok;
    let ghost q7 = pos;
    if ok {
        match parse_json_args(s, n, pos) {
            Some((v, p)) => {
                args = v;
                pos = p;
            },
            None => ok = false,
        }
    }
    let ghost ok8 = ok;
    let ghost q8 = pos;
    if ok {
        match parse_lit(s, n, pos, "}") {
            Some(p) => pos = p,
            None => ok = false,
        }
    }
    let ghost ok9 = ok;
    let ghost q9 = pos;

    let result: Option<((Option<String>, String, String, Vec<String>), usize)> = if ok {
        Some(((net, image, command, args), pos))
    } else {
        None
    };
    proof {
        if ok {
            let vj = result->Some_0;
            let parts = tail_parts(
                crate::metainfo::view_opt_string(vj.0.0),
                vj.0.1@,
                vj.0.2@,
                args_view(vj.0.3@),
            );
            assert(cat(parts.subrange(0, 0)) =~= Seq::<char>::empty());
            assert(sv.subrange(q0 as int, q0 as int) =~= Seq::<char>::empty());
            assert(matches_at(sv, q0 as int, cat(parts.subrange(0, 0))));
            lemma_cat_step(parts, 0);
            lemma_matches_join(sv, q0 as int, cat(parts.subrange(0, 0)), parts[0]);
            assert(q1 as int == q0 + cat_upto(parts, 1));
            lemma_cat_step(parts, 1);
            lemma_matches_join(sv, q0 as int, cat(parts.subrange(0, 1)), parts[1]);
            assert(q2 as int == q0 + cat_upto(parts, 2));
            lemma_cat_step(parts, 2);
            lemma_matches_join(sv, q0 as int, cat(parts.subrange(0, 2)), parts[2]);
            assert(q3 as int == q0 + cat_upto(parts, 3));
            lemma_cat_step(parts, 3);
            lemma_matches_join(sv, q0 as int, cat(parts.subrange(0, 3)), parts[3]);
            assert(q4 as int == q0 + cat_upto(parts, 4));
            lemma_cat_step(parts, 4);
            lemma_matches_join(sv, q0 as int, cat(parts.subrange(0, 4)), parts[4]);
            assert(q5 as int == q0 + cat_upto(parts, 5));
            lemma_cat_step(parts, 5);
            lemma_matches_join(sv, q0 as int, cat(parts.subrange(0, 5)), parts[5]);
            assert(q6 as int == q0 + cat_upto(parts, 6));
            lemma_cat_step(parts, 6);
            lemma_matches_join(sv, q0 as int, cat(parts.subrange(0, 6)), parts[6]);
            assert(q7 as int == q0 + cat_upto(parts, 7));
            lemma_cat_step(parts, 7);
            lemma_matches_join(sv, q0 as int, cat(parts.subrange(0, 7)), parts[7]);
            assert(q8 as int == q0 + cat_upto(parts, 8));
            lemma_cat_step(parts, 8);
            lemma_matches_join(sv, q0 as int, cat(parts.subrange(0, 8)), parts[8]);
            assert(q9 as int == q0 + cat_upto(parts, 9));
            assert(parts.subrange(0, 9) =~= parts);
            assert(matches_at(sv, i as int, cat(parts)));
        }
        assert forall|
            net_m: Option<Seq<char>>,
            image_m: Seq<char>,
            command_m: Seq<char>,
            args_m: Seq<Seq<char>>,
        |
            #[trigger] matches_at(
                sv,
                i as int,
                cat(tail_parts(net_m, image_m, command_m, args_m)),
            ) implies match result {
            Some(vj) => crate::metainfo::view_opt_string(vj.0.0) == net_m && vj.0.1@ == image_m
                && vj.0.2@ == command_m && args_view(vj.0.3@) == args_m && vj.1 == i + cat(
                tail_parts(net_m, image_m, command_m, args_m),
            ).len(),
            None => false,
        } by {
            tail_facts(sv, i as int, net_m, image_m, command_m, args_m);
            let parts = tail_parts(net_m, image_m, command_m, args_m);
            assert(parts[0] == ",\"net\":"@ && parts[2] == ",\"image\":"@ && parts[4]
                == ",\"command\":"@ && parts[6] == ",\"args\":"@ && parts[8] == "}"@);
            assert(matches_at(sv, i + cat_upto(parts, 0), parts[0]));
            assert(matches_at(sv, i as int, ",\"net\":"@));
            assert(ok1 && q1 as int == i + cat_upto(parts, 1));
            assert(matches_at(sv, q1 as int, json_opt_string(net_m)));
            assert(ok2 && crate::metainfo::view_opt_string(net) == net_m && q2 as int == i
                + cat_upto(parts, 2));
            assert(matches_at(sv, q2 as int, ",\"image\":"@));
            assert(ok3 && q3 as int == i + cat_upto(parts, 3));
            assert(matches_at(sv, q3 as int, json_string(image_m)));
            assert(ok4 && image@ == image_m && q4 as int == i + cat_upto(parts, 4));
            assert(matches_at(sv, q4 as int, ",\"command\":"@));
            assert(ok5 && q5 as int == i + cat_upto(parts, 5));
            assert(matches_at(sv, q5 as int, json_string(command_m)));
            assert(ok6 && command@ == command_m && q6 as int == i + cat_upto(parts, 6));
            assert(matches_at(sv, q6 as int, ",\"args\":"@));
            assert(ok7 && q7 as int == i + cat_upto(parts, 7));
            assert(matches_at(sv, q7 as int, json_args(args_m)));
            assert(ok8 && args_view(args@) == args_m && q8 as int == i + cat_upto(parts, 8));
            assert(matches_at(sv, q8 as int, "}"@));
            assert(ok9 && q9 as int == i + cat_upto(parts, 9));
            assert(ok);
        }
    }
    result
}

/// Read a command object.  Exactly the documents `json_command` emits
/// from an acceptable specification are read back, and to that very
/// specification.
fn parse_json_command(s: &str, n: usize, i: usize) -> (r: Option<(RunCommand, usize)>)
    requires
        n == s@.len(),
        i <= n,
    ensures
        match r {
            Some(vj) => {
                &&& matches_at(s@, i as int, json_command(vj.0@))
                &&& vj.1 == i + json_command(vj.0@).len()
            },
            None => true,
        },
        forall|c: RunCommandView|
            #[trigger] matches_at(s@, i as int, json_command(c)) ==> match r {
                Some(vj) => vj.0@ == c && vj.1 == i + json_command(c).len(),
                None => false,
            },
{
    let ghost sv = s@;
    proof {
        assert forall|c: RunCommandView|
            #[trigger] matches_at(sv, i as int, json_command(c)) implies matches_at(
            sv,
            i as int,
            cat(head_parts(c.cpu, c.mem, c.volume, c.detach)),
        ) && matches_at(
            sv,
            i + cat(head_parts(c.cpu, c.mem, c.volume, c.detach)).len(),
            cat(tail_parts(c.net, c.image, c.command, c.args)),
        ) by {
            lemma_command_split(c);
            lemma_matches_split(
                sv,
                i as int,
                cat(head_parts(c.cpu, c.mem, c.volume, c.detach)),
                cat(tail_parts(c.net, c.image, c.command, c.args)),
            );
        }
    }
    let head = parse_cmd_head(s, n, i);
    let (hv, p1) = match head {
        Some(x) => x,
        None => {
            return None;
        },
    };
    let tail = parse_cmd_tail(s, n, p1);
    let (tv, p2) = match tail {
        Some(x) => x,
        None => {
            return None;
        },
    };
    let (cpu, mem, volume, detach) = hv;
    let (net, image, command, args) = tv;
    let built = RunCommand { cpu, mem, volume, detach, net, image, command, args };
    proof {
        lemma_command_split(built@);
        lemma_matches_join(
            sv,
            i as int,
            cat(head_parts(built@.cpu, built@.mem, built@.volume, built@.detach)),
            cat(tail_parts(built@.net, built@.image, built@.command, built@.args)),
        );
    }
    Some((built, p2))
}

/// Where a metainfo record stands at `i`, each of its segments stands at
/// its own offset, and a present pid number is followed by a comma.
proof fn meta_facts(sv: Seq<char>, i: int, m: MetainfoView)
    requires
        matches_at(sv, i, json_meta(m)),
    ensures
        forall|k: int|
            0 <= k < 9 ==> matches_at(sv, i + cat_upto(meta_parts(m), k), #[trigger] meta_parts(
                m,
            )[k]),
        cat_upto(meta_parts(m), 0) == 0,
        cat_upto(meta_parts(m), 1) == cat_upto(meta_parts(m), 0) + meta_parts(m)[0].len(),
        cat_upto(meta_parts(m), 2) == cat_upto(meta_parts(m), 1) + meta_parts(m)[1].len(),
        cat_upto(meta_parts(m), 3) == cat_upto(meta_parts(m), 2) + meta_parts(m)[2].len(),
        cat_upto(meta_parts(m), 4) == cat_upto(meta_parts(m), 3) + meta_parts(m)[3].len(),
        cat_upto(meta_parts(m), 5) == cat_upto(meta_parts(m), 4) + meta_parts(m)[4].len(),
        cat_upto(meta_parts(m), 6) == cat_upto(meta_parts(m), 5) + meta_parts(m)[5].len(),
        cat_upto(meta_parts(m), 7) == cat_upto(meta_parts(m), 6) + meta_parts(m)[6].len(),
        cat_upto(meta_parts(m), 8) == cat_upto(meta_parts(m), 7) + meta_parts(m)[7].len(),
        cat_upto(meta_parts(m), 9) == cat_upto(meta_parts(m), 8) + meta_parts(m)[8].len(),
        json_meta(m).len() == cat_upto(meta_parts(m), 9),
        m.pid is Some ==> digit_boundary(sv, i + cat_upto(meta_parts(m), 2)),
{
    let parts = meta_parts(m);
    assert forall|k: int| 0 <= k < 9 implies matches_at(
        sv,
        i + cat_upto(parts, k),
        #[trigger] parts[k],
    ) by {
        lemma_cat_elem(sv, i, parts, k);
    }
    lemma_cat_step(parts, 0);
    lemma_cat_step(parts, 1);
    lemma_cat_step(parts, 2);
    lemma_cat_step(parts, 3);
    lemma_cat_step(parts, 4);
    lemma_cat_step(parts, 5);
    lemma_cat_step(parts, 6);
    lemma_cat_step(parts, 7);
    lemma_cat_step(parts, 8);
    assert(parts.subrange(0, 9) =~= parts);
    if m.pid is Some {
        reveal_strlit(",\"id\":");
        lemma_cat_elem(sv, i, parts, 2);
        lemma_matches_first(sv, i + cat_upto(parts, 2), parts[2]);
        assert(sv[i + cat_upto(parts, 2)] == ',');
    }
}

/// Read a metainfo record object.
#[verifier::rlimit(100)]
fn parse_json_meta(s: &str, n: usize, i: usize) -> (r: Option<(Metainfo, usize)>)
    requires
        n == s@.len(),
        i <= n,
    ensures
        match r {
            Some(vj) => {
                &&& matches_at(s@, i as int, json_meta(vj.0@))
                &&& vj.1 == i + json_meta(vj.0@).len()
            },
            None => true,
        },
        forall|m: MetainfoView|
            #[trigger] matches_at(s@, i as int, json_meta(m)) ==> match r {
                Some(vj) => vj.0@ == m && vj.1 == i + json_meta(m).len(),
                None => false,
            },
{
    let ghost sv = s@;
    let mut ok = true;
    let mut pos = i;
    let mut pid: Option<u32> = None;
    let mut id = String::new();
    let mut command = RunCommand {
        cpu: None,
        mem: None,
        volume: None,
        detach: false,
        net: None,
        image: String::new(),
        command: String::new(),
        args: Vec::new(),
    };
    let mut status = Status::Exited;

    let ghost q0 = pos;
    match parse_lit(s, n, pos, "{\"pid\":") {
        Some(p) => pos = p,
        None => ok = false,
    }
    let ghost ok1 = ok;
    let ghost q1 = pos;
    if ok {
        match parse_json_opt_u32(s, n, pos) {
            Some((v, p)) => {
                pid = v;
                pos = p;
            },
            None => ok = false,
        }
    }
    let ghost ok2 = ok;
    let ghost q2 = pos;
    if ok {
        match parse_lit(s, n, pos, ",\"id\":") {
            Some(p) => pos = p,
            None => ok = false,
        }
    }
    let ghost ok3 = ok;
    let ghost q3 = pos;
    if ok {
        match parse_json_string(s, n, pos) {
            Some((v, p)) => {
                id = v;
                pos = p;
            },
            None => ok = false,
        }
    }
    let ghost ok4 = ok;
    let ghost q4 = pos;
    if ok {
        match parse_lit(s, n, pos, ",\"command\":") {
            Some(p) => pos = p,
            None => ok = false,
        }
    }
    let ghost ok5 = ok;
    let ghost q5 = pos;
    if ok {
        match parse_json_command(s, n, pos) {
            Some((v, p)) => {
                command = v;
                pos = p;
            },
            None => ok = false,
        }
    }
    let ghost ok6 = ok;
    let ghost q6 = pos;
    if ok {
        match parse_lit(s, n, pos, ",\"status\":") {
            Some(p) => pos = p,
            None => ok = false,
        }
    }
    let ghost ok7 = ok;
    let ghost q7 = pos;
    if ok {
        match parse_json_status(s, n, pos) {
            Some((v, p)) => {
                status = v;
                pos = p;
            },
            None => ok = false,
        }
    }
    let ghost ok8 = ok;
    let ghost q8 = pos;
    if ok {
        match parse_lit(s, n, pos, "}") {
            Some(p) => pos = p,
            None => ok = false,
        }
    }
    let ghost ok9 = ok;
    let ghost q9 = pos;

    let result: Option<(Metainfo, usize)> = if ok {
        Some((Metainfo { pid, id, command, status }, pos))
    } else {
        None
    };
    proof {
        if ok {
            let vj = result->Some_0;
            let parts = meta_parts(vj.0@);
            assert(cat(parts.subrange(0, 0)) =~= Seq::<char>::empty());
            assert(sv.subrange(q0 as int, q0 as int) =~= Seq::<char>::empty());
            assert(matches_at(sv, q0 as int, cat(parts.subrange(0, 0))));
            lemma_cat_step(parts, 0);
            lemma_matches_join(sv, q0 as int, cat(parts.subrange(0, 0)), parts[0]);
            assert(q1 as int == q0 + cat_upto(parts, 1));
            lemma_cat_step(parts, 1);
            lemma_matches_join(sv, q0 as int, cat(parts.subrange(0, 1)), parts[1]);
            assert(q2 as int == q0 + cat_upto(parts, 2));
            lemma_cat_step(parts, 2);
            lemma_matches_join(sv, q0 as int, cat(parts.subrange(0, 2)), parts[2]);
            assert(q3 as int == q0 + cat_upto(parts, 3));
            lemma_cat_step(parts, 3);
            lemma_matches_join(sv, q0 as int, cat(parts.subrange(0, 3)), parts[3]);
            assert(q4 as int == q0 + cat_upto(parts, 4));
            lemma_cat_step(parts, 4);
            lemma_matches_join(sv, q0 as int, cat(parts.subrange(0, 4)), parts[4]);
            assert(q5 as int == q0 + cat_upto(parts, 5));
            lemma_cat_step(parts, 5);
            lemma_matches_join(sv, q0 as int, cat(parts.subrange(0, 5)), parts[5]);
            assert(q6 as int == q0 + cat_upto(parts, 6));
            lemma_cat_step(parts, 6);
            lemma_matches_join(sv, q0 as int, cat(parts.subrange(0, 6)), parts[6]);
            assert(q7 as int == q0 + cat_upto(parts, 7));
            lemma_cat_step(parts, 7);
            lemma_matches_join(sv, q0 as int, cat(parts.subrange(0, 7)), parts[7]);
            assert(q8 as int == q0 + cat_upto(parts, 8));
            lemma_cat_step(parts, 8);
            lemma_matches_join(sv, q0 as int, cat(parts.subrange(0, 8)), parts[8]);
            assert(q9 as int == q0 + cat_upto(parts, 9));
            assert(parts.subrange(0, 9) =~= parts);
            assert(matches_at(sv, i as int, json_meta(vj.0@)));
        }
        assert forall|m: MetainfoView|
            #[trigger] matches_at(sv, i as int, json_meta(m)) implies match result {
            Some(vj) => vj.0@ == m && vj.1 == i + json_meta(m).len(),
            None => false,
        } by {
            meta_facts(sv, i as int, m);
            let parts = meta_parts(m);
            assert(parts[0] == "{\"pid\":"@ && parts[2] == ",\"id\":"@ && parts[4]
                == ",\"command\":"@ && parts[6] == ",\"status\":"@ && parts[8] == "}"@);
            assert(matches_at(sv, i + cat_upto(parts, 0), parts[0]));
            assert(matches_at(sv, i as int, "{\"pid\":"@));
            assert(ok1 && q1 as int == i + cat_upto(parts, 1));
            assert(matches_at(sv, q1 as int, json_opt_u32(m.pid)));
            assert(m.pid is Some ==> digit_boundary(sv, q1 + json_opt_u32(m.pid).len()));
            assert(ok2 && pid == m.pid && q2 as int == i + cat_upto(parts, 2));
            assert(matches_at(sv, q2 as int, ",\"id\":"@));
            assert(ok3 && q3 as int == i + cat_upto(parts, 3));
            assert(matches_at(sv, q3 as int, json_string(m.id)));
            assert(ok4 && id@ == m.id && q4 as int == i + cat_upto(parts, 4));
            assert(matches_at(sv, q4 as int, ",\"command\":"@));
            assert(ok5 && q5 as int == i + cat_upto(parts, 5));
            assert(matches_at(sv, q5 as int, json_command(m.command)));
            assert(ok6 && command@ == m.command && q6 as int == i + cat_upto(parts, 6));
            assert(matches_at(sv, q6 as int, ",\"status\":"@));
            assert(ok7 && q7 as int == i + cat_upto(parts, 7));
            assert(matches_at(sv, q7 as int, json_status(m.status)));
            assert(ok8 && status == m.status && q8 as int == i + cat_upto(parts, 8));
            assert(matches_at(sv, q8 as int, "}"@));
            assert(ok9 && q9 as int == i + cat_upto(parts, 9));
            assert(ok);
            let vj = result->Some_0;
            assert(vj.0@ == m);
        }
    }
    result
}

/// Read back a record from one whole JSON document.
///
/// Round-trip law: the exact text `to_json` wrote is always read back,
/// and to the very record it was written from; and whatever this reader
/// accepts is the rendering of the record it returns.
pub fn from_json(s: &str) -> (r: Option<Metainfo>)
    ensures
        match r {
            Some(m) => s@ == json_meta(m@),
            None => true,
        },
        forall|m: MetainfoView|
            s@ == #[trigger] json_meta(m) ==> match r {
                Some(v) => v@ == m,
                None => false,
            },
{
    let ghost sv = s@;
    let n = s.unicode_len();
    proof {
        assert forall|m: MetainfoView|
            sv == #[trigger] json_meta(m) implies matches_at(
            sv,
            0,
            json_meta(m),
        ) by {
            assert(sv.subrange(0, json_meta(m).len() as int) =~= json_meta(m));
        }
    }
    match parse_json_meta(s, n, 0) {
        None => None,
        Some((m, j)) => {
            if j == n {
                proof {
                    assert(sv.subrange(0, j as int) =~= sv);
                }
                Some(m)
            } else {
                None
            }
        },
    }
}

/// The round-trip law as running code: any record whose strings the
/// format admits survives a write to the store's document and a read
/// back, unchanged.
pub fn store_round_trip(m: &Metainfo) -> (r: Metainfo)
    ensures
        r@ == m@,
{
    let text = to_json(m);
    match from_json(text.as_str()) {
        Some(m2) => m2,
        None => unreached(),
    }
}

} // verus!
