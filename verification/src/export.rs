//! Verified serialization of a report.
//!
//! JSON: one array of volume objects with exact decimal numbers (GiB for
//! capacities, MiB for file sizes), so re-parsing reproduces the byte
//! counts without loss. CSV: one row per file with two-decimal values and
//! a unit label, quoted the usual way (a field is quoted when it holds a
//! comma, quote or line break, with quotes doubled). Both outputs are
//! functions of the report alone: exporting twice gives identical text.

use vstd::prelude::*;
use crate::collect::files_view;
use crate::model::{DiskInfo, FileInfo};
use crate::numfmt::{number_digits, push_2dp, push_number, two_dp_digits};
use crate::{GIB, MIB};

verus! {

/// Threshold at which the display switches from MiB to GiB: 1000 MiB.
pub const GB_THRESHOLD: u64 = 1048576000;

/// One hexadecimal digit, lower case.
pub open spec fn hex_digit(d: nat) -> Seq<char> {
    if d == 0 {
        "0"@
    } else if d == 1 {
        "1"@
    } else if d == 2 {
        "2"@
    } else if d == 3 {
        "3"@
    } else if d == 4 {
        "4"@
    } else if d == 5 {
        "5"@
    } else if d == 6 {
        "6"@
    } else if d == 7 {
        "7"@
    } else if d == 8 {
        "8"@
    } else if d == 9 {
        "9"@
    } else if d == 10 {
        "a"@
    } else if d == 11 {
        "b"@
    } else if d == 12 {
        "c"@
    } else if d == 13 {
        "d"@
    } else if d == 14 {
        "e"@
    } else {
        "f"@
    }
}

/// The JSON rendering of one character inside a string literal.
pub open spec fn esc(c: char) -> Seq<char> {
    if c == '"' {
        "\\\""@
    } else if c == '\\' {
        "\\\\"@
    } else if c == '\n' {
        "\\n"@
    } else if c == '\r' {
        "\\r"@
    } else if c == '\t' {
        "\\t"@
    } else if (c as u32) < 32 {
        "\\u00"@ + hex_digit((c as u32 / 16) as nat) + hex_digit((c as u32 % 16) as nat)
    } else {
        seq![c]
    }
}

/// The JSON rendering of a string's characters.
pub open spec fn json_escaped(s: Seq<char>) -> Seq<char>
    decreases s.len(),
{
    if s.len() == 0 {
        Seq::<char>::empty()
    } else {
        json_escaped(s.drop_last()) + esc(s.last())
    }
}

/// Appends one hexadecimal digit.
fn push_hex_digit(out: &mut String, d: u32)
    requires
        d < 16,
    ensures
        final(out)@ == old(out)@ + hex_digit(d as nat),
{
    if d == 0 {
        out.append("0");
    } else if d == 1 {
        out.append("1");
    } else if d == 2 {
        out.append("2");
    } else if d == 3 {
        out.append("3");
    } else if d == 4 {
        out.append("4");
    } else if d == 5 {
        out.append("5");
    } else if d == 6 {
        out.append("6");
    } else if d == 7 {
        out.append("7");
    } else if d == 8 {
        out.append("8");
    } else if d == 9 {
        out.append("9");
    } else if d == 10 {
        out.append("a");
    } else if d == 11 {
        out.append("b");
    } else if d == 12 {
        out.append("c");
    } else if d == 13 {
        out.append("d");
    } else if d == 14 {
        out.append("e");
    } else {
        out.append("f");
    }
}

/// Appends the characters of `s`, JSON-escaped.
fn push_json_escaped(out: &mut String, s: &str)
    ensures
        final(out)@ == old(out)@ + json_escaped(s@),
{
    let n = s.unicode_len();
    let mut i: usize = 0;
    while i < n
        invariant
            n == s@.len(),
            i <= n,
            out@ == old(out)@ + json_escaped(s@.subrange(0, i as int)),
        decreases n - i,
    {
        let c = s.get_char(i);
        if c == '"' {
            out.append("\\\"");
        } else if c == '\\' {
            out.append("\\\\");
        } else if c == '\n' {
            out.append("\\n");
        } else if c == '\r' {
            out.append("\\r");
        } else if c == '\t' {
            out.append("\\t");
        } else if (c as u32) < 32 {
            out.append("\\u00");
            push_hex_digit(out, (c as u32) / 16);
            push_hex_digit(out, (c as u32) % 16);
        } else {
            let piece = s.substring_char(i, i + 1);
            out.append(piece);
            assert(piece@ =~= seq![c]);
        }
        proof {
            let prefix2 = s@.subrange(0, i as int + 1);
            assert(prefix2.drop_last() =~= s@.subrange(0, i as int));
            assert(prefix2.last() == c);
            assert(out@ =~= old(out)@ + json_escaped(prefix2));
        }
        i += 1;
    }
    proof {
        assert(s@.subrange(0, n as int) =~= s@);
    }
}

/// Value of one hexadecimal digit character, lower case.
pub open spec fn hex_val(c: char) -> nat {
    if c == '0' {
        0
    } else if c == '1' {
        1
    } else if c == '2' {
        2
    } else if c == '3' {
        3
    } else if c == '4' {
        4
    } else if c == '5' {
        5
    } else if c == '6' {
        6
    } else if c == '7' {
        7
    } else if c == '8' {
        8
    } else if c == '9' {
        9
    } else if c == 'a' {
        10
    } else if c == 'b' {
        11
    } else if c == 'c' {
        12
    } else if c == 'd' {
        13
    } else if c == 'e' {
        14
    } else {
        15
    }
}

/// Reading JSON string escapes back: the inverse of `json_escaped` on
/// well-formed text.
pub open spec fn unescape(t: Seq<char>) -> Seq<char>
    decreases t.len(),
{
    if t.len() == 0 {
        Seq::<char>::empty()
    } else if t[0] != '\\' {
        seq![t[0]] + unescape(t.drop_first())
    } else if t.len() >= 2 && t[1] == '"' {
        seq!['"'] + unescape(t.skip(2))
    } else if t.len() >= 2 && t[1] == '\\' {
        seq!['\\'] + unescape(t.skip(2))
    } else if t.len() >= 2 && t[1] == 'n' {
        seq!['\n'] + unescape(t.skip(2))
    } else if t.len() >= 2 && t[1] == 'r' {
        seq!['\r'] + unescape(t.skip(2))
    } else if t.len() >= 2 && t[1] == 't' {
        seq!['\t'] + unescape(t.skip(2))
    } else if t.len() >= 6 && t[1] == 'u' {
        seq![((16 * hex_val(t[4]) + hex_val(t[5])) as u32) as char] + unescape(t.skip(6))
    } else {
        Seq::<char>::empty()
    }
}

/// `json_escaped` also unfolds from the front, one character at a time.
proof fn lemma_escaped_front(s: Seq<char>)
    requires
        s.len() > 0,
    ensures
        json_escaped(s) == esc(s[0]) + json_escaped(s.drop_first()),
    decreases s.len(),
{
    if s.len() == 1 {
        assert(s.drop_last() =~= Seq::<char>::empty());
        assert(s.drop_first() =~= Seq::<char>::empty());
        assert(json_escaped(s) =~= esc(s[0]) + json_escaped(s.drop_first()));
    } else {
        let dl = s.drop_last();
        lemma_escaped_front(dl);
        assert(s.drop_first().drop_last() =~= dl.drop_first());
        assert(s.drop_first().last() == s.last());
        assert(json_escaped(s.drop_first()) == json_escaped(dl.drop_first()) + esc(s.last()));
        assert(dl[0] == s[0]);
        assert(json_escaped(s) =~= esc(s[0]) + json_escaped(s.drop_first()));
    }
}

/// Escaping a string and reading the escapes back loses nothing: the
/// exported text determines names and paths exactly.
pub proof fn lemma_unescape_roundtrip(s: Seq<char>)
    ensures
        unescape(json_escaped(s)) == s,
    decreases s.len(),
{
    reveal_strlit("\\\"");
    reveal_strlit("\\\\");
    reveal_strlit("\\n");
    reveal_strlit("\\r");
    reveal_strlit("\\t");
    reveal_strlit("\\u00");
    reveal_strlit("0");
    reveal_strlit("1");
    if s.len() == 0 {
    } else {
        let c = s[0];
        let e = esc(c);
        let rest = json_escaped(s.drop_first());
        let t = json_escaped(s);
        lemma_escaped_front(s);
        lemma_unescape_roundtrip(s.drop_first());
        if c == '"' || c == '\\' || c == '\n' || c == '\r' || c == '\t' {
            assert(e.len() == 2 && e[0] == '\\');
            assert(t[0] == '\\' && t[1] == e[1]);
            assert(t.skip(2) =~= rest);
            assert(unescape(t) =~= s);
        } else if (c as u32) < 32 {
            let hi = ((c as u32) / 16) as nat;
            let lo = ((c as u32) % 16) as nat;
            assert(e =~= "\\u00"@ + hex_digit(hi) + hex_digit(lo));
            assert(hi < 2);
            lemma_hex_digit_val(hi);
            lemma_hex_digit_val(lo);
            assert(e.len() == 6);
            assert(t[0] == '\\' && t[1] == 'u');
            assert(t[4] == hex_digit(hi)[0] && t[5] == hex_digit(lo)[0]);
            assert(16 * hex_val(t[4]) + hex_val(t[5]) == c as u32) by {
                vstd::arithmetic::div_mod::lemma_fundamental_div_mod(c as u32 as int, 16);
            }
            assert(((c as u32) as char) == c) by {
                vstd::utf8::char_u32_cast(c, c as u32);
            }
            assert(t.skip(6) =~= rest);
            assert(unescape(t) =~= s);
        } else {
            assert(e =~= seq![c]);
            assert(t[0] == c && c != '\\');
            assert(t.drop_first() =~= rest);
            assert(unescape(t) =~= s);
        }
    }
}

/// Where a JSON string ends: the first quote not taken by an escape.
pub open spec fn string_end(t: Seq<char>) -> nat
    decreases t.len(),
{
    if t.len() == 0 {
        0
    } else if t[0] == '"' {
        0
    } else if t[0] == '\\' {
        if t.len() == 1 {
            1
        } else {
            2 + string_end(t.skip(2))
        }
    } else {
        1 + string_end(t.drop_first())
    }
}

/// An exported string field can be cut back out of the document: in the
/// escaped text followed by its closing quote and anything after it, the
/// first unescaped quote is exactly the closing one, and decoding what
/// stands before it gives the original string back.
pub proof fn lemma_escaped_string_delimited(s: Seq<char>, rest: Seq<char>)
    ensures
        string_end(json_escaped(s) + "\""@ + rest) == json_escaped(s).len(),
        (json_escaped(s) + "\""@ + rest).subrange(0, json_escaped(s).len() as int) == json_escaped(
            s,
        ),
        unescape(json_escaped(s)) == s,
    decreases s.len(),
{
    reveal_strlit("\"");
    reveal_strlit("\\\"");
    reveal_strlit("\\\\");
    reveal_strlit("\\n");
    reveal_strlit("\\r");
    reveal_strlit("\\t");
    reveal_strlit("\\u00");
    lemma_unescape_roundtrip(s);
    let t = json_escaped(s) + "\""@ + rest;
    assert(t.subrange(0, json_escaped(s).len() as int) =~= json_escaped(s));
    if s.len() == 0 {
        assert(json_escaped(s) =~= Seq::<char>::empty());
        assert(t[0] == '"');
    } else {
        let c = s[0];
        let e = esc(c);
        lemma_escaped_front(s);
        lemma_escaped_string_delimited(s.drop_first(), rest);
        let t2 = json_escaped(s.drop_first()) + "\""@ + rest;
        if c == '"' || c == '\\' || c == '\n' || c == '\r' || c == '\t' {
            assert(e.len() == 2 && e[0] == '\\');
            assert(t[0] == '\\');
            assert(t.len() >= 2);
            assert(t.skip(2) =~= t2);
            assert(string_end(t) == 2 + string_end(t2));
        } else if (c as u32) < 32 {
            let hi = ((c as u32) / 16) as nat;
            let lo = ((c as u32) % 16) as nat;
            lemma_hex_digit_val(hi);
            lemma_hex_digit_val(lo);
            assert(e =~= "\\u00"@ + hex_digit(hi) + hex_digit(lo));
            assert(e.len() == 6);
            assert(t[0] == '\\');
            assert(t.skip(2) =~= seq!['0', '0', hex_digit(hi)[0], hex_digit(lo)[0]] + t2);
            let u0 = t.skip(2);
            assert(u0[0] == '0' && u0[0] != '"' && u0[0] != '\\');
            let u1 = u0.drop_first();
            assert(u1 =~= seq!['0', hex_digit(hi)[0], hex_digit(lo)[0]] + t2);
            assert(u1[0] == '0' && u1[0] != '"' && u1[0] != '\\');
            let u2 = u1.drop_first();
            assert(u2 =~= seq![hex_digit(hi)[0], hex_digit(lo)[0]] + t2);
            assert(u2[0] != '"' && u2[0] != '\\');
            let u3 = u2.drop_first();
            assert(u3 =~= seq![hex_digit(lo)[0]] + t2);
            assert(u3[0] != '"' && u3[0] != '\\');
            assert(u3.drop_first() =~= t2);
            assert(string_end(u3) == 1 + string_end(t2));
            assert(string_end(u2) == 1 + string_end(u3));
            assert(string_end(u1) == 1 + string_end(u2));
            assert(string_end(u0) == 1 + string_end(u1));
            assert(t.len() >= 2);
            assert(string_end(t) == 2 + string_end(u0));
        } else {
            assert(e =~= seq![c]);
            assert(t[0] == c && c != '"' && c != '\\');
            assert(t.drop_first() =~= t2);
            assert(string_end(t) == 1 + string_end(t2));
        }
    }
}

/// The hexadecimal rendering and its reading are inverse for one digit.
proof fn lemma_hex_digit_val(d: nat)
    requires
        d < 16,
    ensures
        hex_digit(d).len() == 1,
        hex_val(hex_digit(d)[0]) == d,
        hex_digit(d)[0] != '"',
        hex_digit(d)[0] != '\\',
{
    reveal_strlit("0");
    reveal_strlit("1");
    reveal_strlit("2");
    reveal_strlit("3");
    reveal_strlit("4");
    reveal_strlit("5");
    reveal_strlit("6");
    reveal_strlit("7");
    reveal_strlit("8");
    reveal_strlit("9");
    reveal_strlit("a");
    reveal_strlit("b");
    reveal_strlit("c");
    reveal_strlit("d");
    reveal_strlit("e");
    reveal_strlit("f");
}

/// The JSON object for one file record.
pub open spec fn json_file(t: (Seq<char>, u64)) -> Seq<char> {
    "{\"path\":\""@ + json_escaped(t.0) + "\",\"size_mb\":"@ + number_digits(
        t.1 as nat,
        MIB as nat,
        20,
    ) + "}"@
}

/// The JSON array elements for a file list, comma separated.
pub open spec fn json_files(files: Seq<(Seq<char>, u64)>) -> Seq<char>
    decreases files.len(),
{
    if files.len() == 0 {
        Seq::<char>::empty()
    } else if files.len() == 1 {
        json_file(files[0])
    } else {
        json_files(files.drop_last()) + ","@ + json_file(files.last())
    }
}

/// The JSON object for one volume.
pub open spec fn json_volume(d: DiskInfo) -> Seq<char> {
    "{\"name\":\""@ + json_escaped(d.name@) + "\",\"total_space\":"@ + number_digits(
        d.total_space as nat,
        GIB as nat,
        30,
    ) + ",\"used_space\":"@ + number_digits(d.used_space as nat, GIB as nat, 30)
        + ",\"files\":["@ + json_files(files_view(d.files@)) + "]}"@
}

/// The JSON document for a report: one array of volume objects.
pub open spec fn json_report(disks: Seq<DiskInfo>) -> Seq<char>
    decreases disks.len(),
{
    if disks.len() == 0 {
        "[]"@
    } else if disks.len() == 1 {
        "["@ + json_volume(disks[0]) + "]"@
    } else {
        json_report(disks.drop_last()).drop_last() + ","@ + json_volume(disks.last()) + "]"@
    }
}

/// Appends the JSON object for one file record.
fn push_json_file(out: &mut String, f: &FileInfo)
    ensures
        final(out)@ == old(out)@ + json_file((f.path@, f.size_bytes)),
{
    out.append("{\"path\":\"");
    push_json_escaped(out, f.path.as_str());
    out.append("\",\"size_mb\":");
    push_number(out, f.size_bytes, MIB, 20);
    out.append("}");
    assert(out@ =~= old(out)@ + json_file((f.path@, f.size_bytes)));
}

/// Appends the JSON object for one volume.
fn push_json_volume(out: &mut String, d: &DiskInfo)
    ensures
        final(out)@ == old(out)@ + json_volume(*d),
{
    out.append("{\"name\":\"");
    push_json_escaped(out, d.name.as_str());
    out.append("\",\"total_space\":");
    push_number(out, d.total_space, GIB, 30);
    out.append(",\"used_space\":");
    push_number(out, d.used_space, GIB, 30);
    out.append(",\"files\":[");
    let mut i: usize = 0;
    let ghost base = out@;
    while i < d.files.len()
        invariant
            i <= d.files@.len(),
            out@ == base + json_files(files_view(d.files@).subrange(0, i as int)),
        decreases d.files@.len() - i,
    {
        if i > 0 {
            out.append(",");
        }
        push_json_file(out, &d.files[i]);
        proof {
            let views = files_view(d.files@);
            let prefix2 = views.subrange(0, i as int + 1);
            assert(prefix2.drop_last() =~= views.subrange(0, i as int));
            assert(prefix2.last() == (d.files@[i as int].path@, d.files@[i as int].size_bytes));
            assert(out@ =~= base + json_files(prefix2));
        }
        i += 1;
    }
    out.append("]}");
    proof {
        assert(files_view(d.files@).subrange(0, files_view(d.files@).len() as int) =~= files_view(
            d.files@,
        ));
        assert(out@ =~= old(out)@ + json_volume(*d));
    }
}

/// Serializes the full report as JSON. An empty report gives the empty
/// array, and equal reports give identical text.
pub fn export_to_json(disks: &Vec<DiskInfo>) -> (out: String)
    ensures
        out@ == json_report(disks@),
        disks@.len() == 0 ==> out@ == "[]"@,
{
    let mut out = String::new();
    if disks.len() == 0 {
        out.append("[]");
        return out;
    }
    out.append("[");
    let mut i: usize = 0;
    while i < disks.len()
        invariant
            disks@.len() > 0,
            i <= disks@.len(),
            i > 0 ==> out@ == json_report(disks@.subrange(0, i as int)).drop_last(),
            i == 0 ==> out@ == "["@,
        decreases disks@.len() - i,
    {
        if i > 0 {
            out.append(",");
        }
        push_json_volume(&mut out, &disks[i]);
        proof {
            let prefix2 = disks@.subrange(0, i as int + 1);
            assert(prefix2.drop_last() =~= disks@.subrange(0, i as int));
            assert(prefix2.last() == disks@[i as int]);
            if i == 0 {
                assert(json_report(prefix2) =~= "["@ + json_volume(disks@[0]) + "]"@);
                assert(("["@ + json_volume(disks@[0]) + "]"@).drop_last() =~= "["@ + json_volume(
                    disks@[0],
                )) by {
                    reveal_strlit("[");
                    reveal_strlit("]");
                }
                assert(out@ =~= json_report(prefix2).drop_last());
            } else {
                assert(json_report(prefix2) =~= json_report(prefix2.drop_last()).drop_last()
                    + ","@ + json_volume(disks@[i as int]) + "]"@);
                assert((json_report(prefix2.drop_last()).drop_last() + ","@ + json_volume(
                    disks@[i as int],
                ) + "]"@).drop_last() =~= json_report(prefix2.drop_last()).drop_last() + ","@
                    + json_volume(disks@[i as int])) by {
                    reveal_strlit("]");
                }
                assert(out@ =~= json_report(prefix2).drop_last());
            }
        }
        i += 1;
    }
    out.append("]");
    proof {
        reveal_strlit("]");
        assert("]"@ =~= seq![']']);
        assert(disks@.subrange(0, disks@.len() as int) =~= disks@);
        let whole = json_report(disks@);
        assert(whole.len() > 0 && whole.last() == ']') by {
            lemma_json_report_closes(disks@);
        }
        assert(out@ =~= whole.drop_last() + seq![']']);
        assert(whole.drop_last() + seq![']'] =~= whole);
    }
    out
}

/// A CSV field must be quoted when it holds a separator, a quote or a
/// line break.
pub open spec fn needs_quoting(s: Seq<char>) -> bool {
    exists|i: int|
        0 <= i < s.len() && ((#[trigger] s[i]) == ',' || s[i] == '"' || s[i] == '\n' || s[i]
            == '\r')
}

/// A string with every quote doubled.
pub open spec fn csv_doubled(s: Seq<char>) -> Seq<char>
    decreases s.len(),
{
    if s.len() == 0 {
        Seq::<char>::empty()
    } else {
        csv_doubled(s.drop_last()) + (if s.last() == '"' {
            "\"\""@
        } else {
            seq![s.last()]
        })
    }
}

/// The CSV rendering of one field: quoted with doubled quotes when
/// needed, verbatim otherwise.
pub open spec fn csv_field(s: Seq<char>) -> Seq<char> {
    if needs_quoting(s) {
        "\""@ + csv_doubled(s) + "\""@
    } else {
        s
    }
}

/// Appends one CSV field.
fn push_csv_field(out: &mut String, s: &str)
    ensures
        final(out)@ == old(out)@ + csv_field(s@),
{
    let n = s.unicode_len();
    let mut quote = false;
    let mut i: usize = 0;
    while i < n
        invariant
            n == s@.len(),
            i <= n,
            quote == needs_quoting(s@.subrange(0, i as int)),
        decreases n - i,
    {
        let c = s.get_char(i);
        if c == ',' || c == '"' || c == '\n' || c == '\r' {
            quote = true;
        }
        proof {
            let prefix = s@.subrange(0, i as int);
            let prefix2 = s@.subrange(0, i as int + 1);
            if c == ',' || c == '"' || c == '\n' || c == '\r' {
                assert(prefix2[i as int] == c);
                assert(needs_quoting(prefix2));
            } else {
                if needs_quoting(prefix) {
                    let w = choose|w: int|
                        0 <= w < prefix.len() && ((#[trigger] prefix[w]) == ',' || prefix[w] == '"'
                            || prefix[w] == '\n' || prefix[w] == '\r');
                    assert(prefix2[w] == prefix[w]);
                }
                if needs_quoting(prefix2) {
                    let w = choose|w: int|
                        0 <= w < prefix2.len() && ((#[trigger] prefix2[w]) == ',' || prefix2[w]
                            == '"' || prefix2[w] == '\n' || prefix2[w] == '\r');
                    assert(w < prefix.len());
                    assert(prefix[w] == prefix2[w]);
                }
            }
        }
        i += 1;
    }
    proof {
        assert(s@.subrange(0, n as int) =~= s@);
    }
    if !quote {
        out.append(s);
        return ;
    }
    out.append("\"");
    let mut j: usize = 0;
    let ghost base = old(out)@ + "\""@;
    while j < n
        invariant
            n == s@.len(),
            j <= n,
            out@ == base + csv_doubled(s@.subrange(0, j as int)),
        decreases n - j,
    {
        let c = s.get_char(j);
        if c == '"' {
            out.append("\"\"");
        } else {
            let piece = s.substring_char(j, j + 1);
            out.append(piece);
            assert(piece@ =~= seq![c]);
        }
        proof {
            let prefix2 = s@.subrange(0, j as int + 1);
            assert(prefix2.drop_last() =~= s@.subrange(0, j as int));
            assert(prefix2.last() == c);
            assert(out@ =~= base + csv_doubled(prefix2));
        }
        j += 1;
    }
    out.append("\"");
    proof {
        assert(s@.subrange(0, n as int) =~= s@);
        assert(out@ =~= old(out)@ + csv_field(s@));
    }
}

/// Collapses doubled quotes back to single ones: the inverse of
/// `csv_doubled` on well-formed text.
pub open spec fn csv_undoubled(t: Seq<char>) -> Seq<char>
    decreases t.len(),
{
    if t.len() == 0 {
        Seq::<char>::empty()
    } else if t.len() >= 2 && t[0] == '"' && t[1] == '"' {
        seq!['"'] + csv_undoubled(t.skip(2))
    } else {
        seq![t[0]] + csv_undoubled(t.drop_first())
    }
}

/// `csv_doubled` also unfolds from the front.
proof fn lemma_doubled_front(s: Seq<char>)
    requires
        s.len() > 0,
    ensures
        csv_doubled(s) == (if s[0] == '"' {
            "\"\""@
        } else {
            seq![s[0]]
        }) + csv_doubled(s.drop_first()),
    decreases s.len(),
{
    if s.len() == 1 {
        assert(s.drop_last() =~= Seq::<char>::empty());
        assert(s.drop_first() =~= Seq::<char>::empty());
        assert(csv_doubled(s) =~= (if s[0] == '"' {
            "\"\""@
        } else {
            seq![s[0]]
        }) + csv_doubled(s.drop_first()));
    } else {
        let dl = s.drop_last();
        lemma_doubled_front(dl);
        assert(s.drop_first().drop_last() =~= dl.drop_first());
        assert(s.drop_first().last() == s.last());
        assert(dl[0] == s[0]);
        assert(csv_doubled(s) =~= (if s[0] == '"' {
            "\"\""@
        } else {
            seq![s[0]]
        }) + csv_doubled(s.drop_first()));
    }
}

/// Doubling quotes and collapsing them back loses nothing: a quoted CSV
/// field determines the original field exactly.
pub proof fn lemma_csv_undoubled_roundtrip(s: Seq<char>)
    ensures
        csv_undoubled(csv_doubled(s)) == s,
    decreases s.len(),
{
    reveal_strlit("\"\"");
    if s.len() == 0 {
    } else {
        let t = csv_doubled(s);
        lemma_doubled_front(s);
        lemma_csv_undoubled_roundtrip(s.drop_first());
        if s[0] == '"' {
            assert(t[0] == '"' && t[1] == '"');
            assert(t.skip(2) =~= csv_doubled(s.drop_first()));
            assert(csv_undoubled(t) =~= s);
        } else {
            assert(t[0] == s[0]);
            if t.len() >= 2 && t[0] == '"' && t[1] == '"' {
                assert(false);
            }
            assert(t.drop_first() =~= csv_doubled(s.drop_first()));
            assert(csv_undoubled(t) =~= s);
        }
    }
}

/// The two-decimal size value and unit label shown for a file: GiB once a
/// file reaches 1000 MiB, MiB below that.
pub open spec fn size_cell(size: u64) -> Seq<char> {
    if size >= GB_THRESHOLD {
        two_dp_digits(size as nat, GIB as nat) + ",GB"@
    } else {
        two_dp_digits(size as nat, MIB as nat) + ",MB"@
    }
}

/// One CSV row: volume name, capacities in GiB to two decimals, file
/// path, unit-adjusted size to two decimals, unit label.
pub open spec fn csv_row(d: DiskInfo, t: (Seq<char>, u64)) -> Seq<char> {
    csv_field(d.name@) + ","@ + two_dp_digits(d.total_space as nat, GIB as nat) + ","@
        + two_dp_digits(d.used_space as nat, GIB as nat) + ","@ + csv_field(t.0) + ","@
        + size_cell(t.1) + "\n"@
}

/// The CSV rows of one volume, one per file.
pub open spec fn csv_rows(d: DiskInfo, files: Seq<(Seq<char>, u64)>) -> Seq<char>
    decreases files.len(),
{
    if files.len() == 0 {
        Seq::<char>::empty()
    } else {
        csv_rows(d, files.drop_last()) + csv_row(d, files.last())
    }
}

/// The CSV document for a report: every volume's rows in order, no
/// header. An empty report gives empty text.
pub open spec fn csv_report(disks: Seq<DiskInfo>) -> Seq<char>
    decreases disks.len(),
{
    if disks.len() == 0 {
        Seq::<char>::empty()
    } else {
        csv_report(disks.drop_last()) + csv_rows(disks.last(), files_view(disks.last().files@))
    }
}

/// Appends one CSV row.
#[verifier::rlimit(100)]
fn push_csv_row(out: &mut String, d: &DiskInfo, f: &FileInfo)
    ensures
        final(out)@ == old(out)@ + csv_row(*d, (f.path@, f.size_bytes)),
{
    push_csv_field(out, d.name.as_str());
    out.append(",");
    push_2dp(out, d.total_space, GIB);
    out.append(",");
    push_2dp(out, d.used_space, GIB);
    out.append(",");
    push_csv_field(out, f.path.as_str());
    out.append(",");
    if f.size_bytes >= GB_THRESHOLD {
        push_2dp(out, f.size_bytes, GIB);
        out.append(",GB");
    } else {
        push_2dp(out, f.size_bytes, MIB);
        out.append(",MB");
    }
    out.append("\n");
    assert(out@ =~= old(out)@ + csv_row(*d, (f.path@, f.size_bytes)));
}

/// Serializes the full report as CSV, one row per file, no header row.
/// A report without files gives a file with no bytes, and equal reports
/// give identical text.
pub fn export_to_csv(disks: &Vec<DiskInfo>) -> (out: String)
    ensures
        out@ == csv_report(disks@),
        disks@.len() == 0 ==> out@.len() == 0,
{
    let mut out = String::new();
    let mut i: usize = 0;
    proof {
        assert(out@ =~= csv_report(disks@.subrange(0, 0)));
    }
    while i < disks.len()
        invariant
            i <= disks@.len(),
            out@ == csv_report(disks@.subrange(0, i as int)),
        decreases disks@.len() - i,
    {
        let d = &disks[i];
        let ghost base = out@;
        let mut j: usize = 0;
        while j < d.files.len()
            invariant
                j <= d.files@.len(),
                out@ == base + csv_rows(*d, files_view(d.files@).subrange(0, j as int)),
            decreases d.files@.len() - j,
        {
            push_csv_row(&mut out, d, &d.files[j]);
            proof {
                let views = files_view(d.files@);
                let prefix2 = views.subrange(0, j as int + 1);
                assert(prefix2.drop_last() =~= views.subrange(0, j as int));
                assert(prefix2.last() == (d.files@[j as int].path@, d.files@[j as int].size_bytes));
                assert(out@ =~= base + csv_rows(*d, prefix2));
            }
            j += 1;
        }
        proof {
            let prefix2 = disks@.subrange(0, i as int + 1);
            assert(prefix2.drop_last() =~= disks@.subrange(0, i as int));
            assert(prefix2.last() == disks@[i as int]);
            assert(files_view(d.files@).subrange(0, files_view(d.files@).len() as int)
                =~= files_view(d.files@));
            assert(out@ =~= csv_report(prefix2));
        }
        i += 1;
    }
    proof {
        assert(disks@.subrange(0, disks@.len() as int) =~= disks@);
    }
    out
}

/// Exporting is a pure function of the report: two exports of the same
/// report are byte-identical, in either format.
pub proof fn lemma_export_idempotent(
    disks: Seq<DiskInfo>,
    j1: Seq<char>,
    j2: Seq<char>,
    c1: Seq<char>,
    c2: Seq<char>,
)
    requires
        j1 == json_report(disks),
        j2 == json_report(disks),
        c1 == csv_report(disks),
        c2 == csv_report(disks),
    ensures
        j1 == j2,
        c1 == c2,
{
}

/// Consumes an expected literal prefix.
pub open spec fn expect(t: Seq<char>, lit: Seq<char>) -> Option<Seq<char>> {
    if lit.len() <= t.len() && t.subrange(0, lit.len() as int) == lit {
        Some(t.skip(lit.len() as int))
    } else {
        None
    }
}

/// Consumes a string body up to its closing quote and decodes it.
pub open spec fn parse_string(t: Seq<char>) -> Option<(Seq<char>, Seq<char>)> {
    let e = string_end(t) as int;
    if e < t.len() {
        Some((unescape(t.subrange(0, e)), t.skip(e + 1)))
    } else {
        None
    }
}

/// How far a number reaches: digits and the dot.
pub open spec fn number_end(t: Seq<char>) -> nat
    decreases t.len(),
{
    if t.len() == 0 {
        0
    } else if crate::numfmt::is_digit_char(t[0]) || t[0] == '.' {
        1 + number_end(t.drop_first())
    } else {
        0
    }
}

/// Consumes a number and reads it back as a byte count over `den`.
pub open spec fn parse_number_field(t: Seq<char>, den: nat) -> Option<(nat, Seq<char>)> {
    let e = number_end(t) as int;
    if 0 < e <= t.len() {
        Some((crate::numfmt::parse_number(t.subrange(0, e), den), t.skip(e)))
    } else {
        None
    }
}

/// Consumes one file object.
#[verifier::opaque]
pub open spec fn parse_file(t: Seq<char>) -> Option<((Seq<char>, nat), Seq<char>)> {
    match expect(t, "{\"path\":\""@) {
        None => None,
        Some(t1) => match parse_string(t1) {
            None => None,
            Some((p, t2)) => match expect(t2, ",\"size_mb\":"@) {
                None => None,
                Some(t3) => match parse_number_field(t3, MIB as nat) {
                    None => None,
                    Some((sz, t4)) => match expect(t4, "}"@) {
                        None => None,
                        Some(t5) => Some(((p, sz), t5)),
                    },
                },
            },
        },
    }
}

/// Consumes a bracketed, comma-separated list of file objects up to and
/// including the closing bracket.
pub open spec fn parse_files(t: Seq<char>, fuel: nat) -> Option<
    (Seq<(Seq<char>, nat)>, Seq<char>),
>
    decreases fuel,
{
    if t.len() > 0 && t[0] == ']' {
        Some((Seq::empty(), t.skip(1)))
    } else if fuel == 0 {
        None
    } else {
        match parse_file(t) {
            None => None,
            Some((f, t2)) => if t2.len() > 0 && t2[0] == ',' {
                match parse_files(t2.skip(1), (fuel - 1) as nat) {
                    None => None,
                    Some((fs, t3)) => Some((seq![f] + fs, t3)),
                }
            } else if t2.len() > 0 && t2[0] == ']' {
                Some((seq![f], t2.skip(1)))
            } else {
                None
            },
        }
    }
}

/// Consumes one volume object.
#[verifier::opaque]
pub open spec fn parse_volume(t: Seq<char>) -> Option<
    ((Seq<char>, nat, nat, Seq<(Seq<char>, nat)>), Seq<char>),
> {
    match expect(t, "{\"name\":\""@) {
        None => None,
        Some(t1) => match parse_string(t1) {
            None => None,
            Some((name, t2)) => match expect(t2, ",\"total_space\":"@) {
                None => None,
                Some(t3) => match parse_number_field(t3, GIB as nat) {
                    None => None,
                    Some((total, t4)) => match expect(t4, ",\"used_space\":"@) {
                        None => None,
                        Some(t5) => match parse_number_field(t5, GIB as nat) {
                            None => None,
                            Some((used, t6)) => match expect(t6, ",\"files\":["@) {
                                None => None,
                                Some(t7) => match parse_files(t7, t7.len()) {
                                    None => None,
                                    Some((fs, t8)) => match expect(t8, "}"@) {
                                        None => None,
                                        Some(t9) => Some(((name, total, used, fs), t9)),
                                    },
                                },
                            },
                        },
                    },
                },
            },
        },
    }
}

/// Consumes a comma-separated list of volume objects up to and including
/// the closing bracket.
pub open spec fn parse_volumes(t: Seq<char>, fuel: nat) -> Option<
    (Seq<(Seq<char>, nat, nat, Seq<(Seq<char>, nat)>)>, Seq<char>),
>
    decreases fuel,
{
    if t.len() > 0 && t[0] == ']' {
        Some((Seq::empty(), t.skip(1)))
    } else if fuel == 0 {
        None
    } else {
        match parse_volume(t) {
            None => None,
            Some((v, t2)) => if t2.len() > 0 && t2[0] == ',' {
                match parse_volumes(t2.skip(1), (fuel - 1) as nat) {
                    None => None,
                    Some((vs, t3)) => Some((seq![v] + vs, t3)),
                }
            } else if t2.len() > 0 && t2[0] == ']' {
                Some((seq![v], t2.skip(1)))
            } else {
                None
            },
        }
    }
}

/// Reads a whole exported document back: the array of volumes, which must
/// be followed by nothing.
pub open spec fn parse_report(t: Seq<char>) -> Option<
    Seq<(Seq<char>, nat, nat, Seq<(Seq<char>, nat)>)>,
> {
    match expect(t, "["@) {
        None => None,
        Some(t1) => match parse_volumes(t1, t1.len()) {
            None => None,
            Some((vs, t2)) => if t2.len() == 0 {
                Some(vs)
            } else {
                None
            },
        },
    }
}

/// The tuple a volume exports: name, capacities in bytes, and the
/// (path, size in bytes) pairs of its files.
pub open spec fn volume_tuple(d: DiskInfo) -> (Seq<char>, nat, nat, Seq<(Seq<char>, nat)>) {
    (
        d.name@,
        d.total_space as nat,
        d.used_space as nat,
        files_view(d.files@).map_values(|t: (Seq<char>, u64)| (t.0, t.1 as nat)),
    )
}

proof fn lemma_expect(lit: Seq<char>, x: Seq<char>)
    ensures
        expect(lit + x, lit) == Some(x),
{
    let t = lit + x;
    assert(t.subrange(0, lit.len() as int) =~= lit);
    assert(t.skip(lit.len() as int) =~= x);
}

proof fn lemma_parse_string(s: Seq<char>, rest: Seq<char>)
    ensures
        parse_string(json_escaped(s) + "\""@ + rest) == Some((s, rest)),
{
    reveal_strlit("\"");
    lemma_escaped_string_delimited(s, rest);
    let t = json_escaped(s) + "\""@ + rest;
    let e = json_escaped(s).len() as int;
    assert(t.subrange(0, e) =~= json_escaped(s));
    assert(t.skip(e + 1) =~= rest);
}

/// Every character of a rendered number is a digit or the dot.
proof fn lemma_number_chars(n: nat, den: nat, fuel: nat)
    ensures
        forall|i: int|
            0 <= i < number_digits(n, den, fuel).len() ==> (crate::numfmt::is_digit_char(
                #[trigger] number_digits(n, den, fuel)[i],
            ) || number_digits(n, den, fuel)[i] == '.'),
{
    crate::numfmt::lemma_dec_digits_are_digits(n / den);
    crate::numfmt::lemma_frac_digits_are_digits(n % den, den, fuel);
    let u = number_digits(n, den, fuel);
    let a = crate::numfmt::dec_digits(n / den);
    assert forall|i: int| 0 <= i < u.len() implies (crate::numfmt::is_digit_char(
        #[trigger] u[i],
    ) || u[i] == '.') by {
        if i < a.len() {
            assert(u[i] == a[i]);
        } else if i == a.len() {
            assert(u[i] == '.');
        } else if n % den == 0 {
            assert(u[i] == '0');
        } else {
            assert(u[i] == crate::numfmt::frac_digits(n % den, den, fuel)[i - a.len() - 1]);
        }
    }
}

proof fn lemma_number_end_concat(u: Seq<char>, rest: Seq<char>)
    requires
        forall|i: int|
            0 <= i < u.len() ==> (crate::numfmt::is_digit_char(#[trigger] u[i]) || u[i] == '.'),
        rest.len() > 0,
        !(crate::numfmt::is_digit_char(rest[0]) || rest[0] == '.'),
    ensures
        number_end(u + rest) == u.len(),
    decreases u.len(),
{
    if u.len() == 0 {
        assert(u + rest =~= rest);
    } else {
        assert((u + rest)[0] == u[0]);
        lemma_number_end_concat(u.drop_first(), rest);
        assert((u + rest).drop_first() =~= u.drop_first() + rest);
    }
}

proof fn lemma_parse_number(n: u64, den: u64, fuel: u64, rest: Seq<char>)
    requires
        den == MIB || den == GIB,
        den == MIB ==> fuel == 20,
        den == GIB ==> fuel == 30,
        rest.len() > 0,
        !(crate::numfmt::is_digit_char(rest[0]) || rest[0] == '.'),
    ensures
        parse_number_field(number_digits(n as nat, den as nat, fuel as nat) + rest, den as nat)
            == Some((n as nat, rest)),
{
    let u = number_digits(n as nat, den as nat, fuel as nat);
    lemma_number_chars(n as nat, den as nat, fuel as nat);
    lemma_number_end_concat(u, rest);
    crate::numfmt::lemma_export_fuel((n as nat) % (den as nat));
    crate::numfmt::lemma_number_roundtrip(n as nat, den as nat, fuel as nat);
    let t = u + rest;
    assert(u.len() > 0);
    assert(t.subrange(0, u.len() as int) =~= u);
    assert(t.skip(u.len() as int) =~= rest);
}

proof fn lemma_parse_file(f: (Seq<char>, u64), rest: Seq<char>)
    requires
        rest.len() > 0,
    ensures
        parse_file(json_file((f.0, f.1)) + rest) == Some(((f.0, f.1 as nat), rest)),
{
    reveal(parse_file);
    reveal_strlit("\",\"size_mb\":");
    reveal_strlit("\"");
    reveal_strlit(",\"size_mb\":");
    reveal_strlit("}");
    let lit1 = "{\"path\":\""@;
    let num = number_digits(f.1 as nat, MIB as nat, 20);
    let t = json_file((f.0, f.1)) + rest;
    assert("\",\"size_mb\":"@ =~= "\""@ + ",\"size_mb\":"@);
    assert(t =~= lit1 + (json_escaped(f.0) + "\""@ + (",\"size_mb\":"@ + (num + ("}"@
        + rest)))));
    lemma_expect(lit1, json_escaped(f.0) + "\""@ + (",\"size_mb\":"@ + (num + ("}"@ + rest))));
    assert(json_escaped(f.0) + "\""@ + (",\"size_mb\":"@ + (num + ("}"@ + rest)))
        =~= json_escaped(f.0) + "\""@ + (",\"size_mb\":"@ + (num + ("}"@ + rest))));
    lemma_parse_string(f.0, ",\"size_mb\":"@ + (num + ("}"@ + rest)));
    assert(json_escaped(f.0) + "\""@ + (",\"size_mb\":"@ + (num + ("}"@ + rest))) =~= (
    json_escaped(f.0) + "\""@) + (",\"size_mb\":"@ + (num + ("}"@ + rest))));
    lemma_expect(",\"size_mb\":"@, num + ("}"@ + rest));
    assert(("}"@ + rest).len() > 0);
    assert(("}"@ + rest)[0] == '}');
    lemma_parse_number(f.1, MIB, 20, "}"@ + rest);
    lemma_expect("}"@, rest);
}

/// `json_files` also unfolds from the front.
proof fn lemma_json_files_front(files: Seq<(Seq<char>, u64)>)
    requires
        files.len() > 0,
    ensures
        files.len() == 1 ==> json_files(files) == json_file(files[0]),
        files.len() > 1 ==> json_files(files) == json_file(files[0]) + ","@ + json_files(
            files.drop_first(),
        ),
    decreases files.len(),
{
    if files.len() <= 2 {
        if files.len() == 2 {
            assert(files.drop_last().len() == 1 && files.drop_last()[0] == files[0]);
            assert(files.drop_first().len() == 1 && files.drop_first()[0] == files[1]);
            assert(json_files(files.drop_last()) == json_file(files[0]));
            assert(json_files(files.drop_first()) == json_file(files[1]));
            assert(files.last() == files[1]);
            assert(json_files(files) =~= json_file(files[0]) + ","@ + json_files(
                files.drop_first(),
            ));
        }
    } else {
        let dl = files.drop_last();
        lemma_json_files_front(dl);
        assert(dl[0] == files[0]);
        assert(files.drop_first().drop_last() =~= dl.drop_first());
        assert(files.drop_first().last() == files.last());
        assert(json_files(files.drop_first()) == json_files(dl.drop_first()) + ","@ + json_file(
            files.last(),
        ));
        assert(json_files(files) =~= json_file(files[0]) + ","@ + json_files(
            files.drop_first(),
        ));
    }
}

/// A file list never renders shorter than its count.
proof fn lemma_json_files_min_len(files: Seq<(Seq<char>, u64)>)
    ensures
        json_files(files).len() >= files.len(),
    decreases files.len(),
{
    reveal_strlit("{\"path\":\"");
    if files.len() == 0 {
    } else if files.len() == 1 {
    } else {
        lemma_json_files_min_len(files.drop_last());
    }
}

#[verifier::rlimit(100)]
proof fn lemma_parse_files(files: Seq<(Seq<char>, u64)>, rest: Seq<char>, fuel: nat)
    requires
        fuel >= files.len(),
        rest.len() > 0,
    ensures
        parse_files(json_files(files) + "]"@ + rest, fuel) == Some(
            (files.map_values(|t: (Seq<char>, u64)| (t.0, t.1 as nat)), rest),
        ),
    decreases files.len(),
{
    reveal_strlit("{\"path\":\"");
    reveal_strlit("]");
    reveal_strlit(",");
    let m = |t: (Seq<char>, u64)| (t.0, t.1 as nat);
    let t = json_files(files) + "]"@ + rest;
    if files.len() == 0 {
        assert(t =~= "]"@ + rest);
        assert(t[0] == ']');
        assert(t.skip(1) =~= rest);
        assert(files.map_values(m) =~= Seq::<(Seq<char>, nat)>::empty());
    } else {
        lemma_json_files_front(files);
        let f0 = files[0];
        assert(json_file(f0)[0] == '{');
        assert(t[0] == '{');
        if files.len() == 1 {
            assert(t =~= json_file((f0.0, f0.1)) + ("]"@ + rest));
            lemma_parse_file(f0, "]"@ + rest);
            let t2 = "]"@ + rest;
            assert(t2[0] == ']' && t2[0] != ',');
            assert(t2.skip(1) =~= rest);
            assert(seq![m(f0)] =~= files.map_values(m));
        } else {
            let tail = ","@ + json_files(files.drop_first()) + "]"@ + rest;
            assert(t =~= json_file((f0.0, f0.1)) + tail);
            lemma_parse_file(f0, tail);
            assert(tail[0] == ',');
            assert(tail.skip(1) =~= json_files(files.drop_first()) + "]"@ + rest);
            lemma_parse_files(files.drop_first(), rest, (fuel - 1) as nat);
            assert(seq![m(f0)] + files.drop_first().map_values(m) =~= files.map_values(m));
        }
    }
}

#[verifier::rlimit(100)]
proof fn lemma_parse_volume(d: DiskInfo, rest: Seq<char>)
    requires
        rest.len() > 0,
    ensures
        parse_volume(json_volume(d) + rest) == Some((volume_tuple(d), rest)),
{
    reveal(parse_volume);
    reveal_strlit("\",\"total_space\":");
    reveal_strlit("\"");
    reveal_strlit(",\"total_space\":");
    reveal_strlit(",\"used_space\":");
    reveal_strlit(",\"files\":[");
    reveal_strlit("]}");
    reveal_strlit("]");
    reveal_strlit("}");
    let fv = files_view(d.files@);
    let numt = number_digits(d.total_space as nat, GIB as nat, 30);
    let numu = number_digits(d.used_space as nat, GIB as nat, 30);
    let t = json_volume(d) + rest;
    let after_files = "}"@ + rest;
    let t7 = json_files(fv) + "]"@ + after_files;
    let t6 = ",\"files\":["@ + t7;
    let t5 = numu + t6;
    let t4 = ",\"used_space\":"@ + t5;
    let t3 = numt + t4;
    let t2 = ",\"total_space\":"@ + t3;
    let t1 = json_escaped(d.name@) + "\""@ + t2;
    assert("\",\"total_space\":"@ =~= "\""@ + ",\"total_space\":"@);
    assert("]}"@ =~= "]"@ + "}"@);
    assert(t =~= "{\"name\":\""@ + t1);
    lemma_expect("{\"name\":\""@, t1);
    lemma_parse_string(d.name@, t2);
    assert(t1 =~= (json_escaped(d.name@) + "\""@) + t2);
    lemma_expect(",\"total_space\":"@, t3);
    assert(t4.len() > 0 && t4[0] == ',');
    lemma_parse_number(d.total_space, GIB, 30, t4);
    lemma_expect(",\"used_space\":"@, t5);
    assert(t6.len() > 0 && t6[0] == ',');
    lemma_parse_number(d.used_space, GIB, 30, t6);
    lemma_expect(",\"files\":["@, t7);
    lemma_json_files_min_len(fv);
    assert(t7.len() >= fv.len());
    lemma_parse_files(fv, after_files, t7.len());
    lemma_expect("}"@, rest);
}

/// The volume objects of a report, comma separated.
pub open spec fn json_volumes(disks: Seq<DiskInfo>) -> Seq<char>
    decreases disks.len(),
{
    if disks.len() == 0 {
        Seq::<char>::empty()
    } else if disks.len() == 1 {
        json_volume(disks[0])
    } else {
        json_volumes(disks.drop_last()) + ","@ + json_volume(disks.last())
    }
}

/// The document is the volume list between one pair of brackets.
proof fn lemma_json_report_shape(disks: Seq<DiskInfo>)
    ensures
        json_report(disks) == "["@ + json_volumes(disks) + "]"@,
    decreases disks.len(),
{
    reveal_strlit("[");
    reveal_strlit("]");
    reveal_strlit("[]");
    if disks.len() == 0 {
        assert(json_report(disks) =~= "["@ + json_volumes(disks) + "]"@);
    } else if disks.len() == 1 {
        assert(json_report(disks) =~= "["@ + json_volumes(disks) + "]"@);
    } else {
        lemma_json_report_shape(disks.drop_last());
        assert(("["@ + json_volumes(disks.drop_last()) + "]"@).drop_last() =~= "["@
            + json_volumes(disks.drop_last()));
        assert(json_report(disks) =~= "["@ + json_volumes(disks) + "]"@);
    }
}

/// `json_volumes` also unfolds from the front.
proof fn lemma_json_volumes_front(disks: Seq<DiskInfo>)
    requires
        disks.len() > 0,
    ensures
        disks.len() == 1 ==> json_volumes(disks) == json_volume(disks[0]),
        disks.len() > 1 ==> json_volumes(disks) == json_volume(disks[0]) + ","@ + json_volumes(
            disks.drop_first(),
        ),
    decreases disks.len(),
{
    if disks.len() <= 2 {
        if disks.len() == 2 {
            assert(disks.drop_last().len() == 1 && disks.drop_last()[0] == disks[0]);
            assert(disks.drop_first().len() == 1 && disks.drop_first()[0] == disks[1]);
            assert(json_volumes(disks.drop_last()) == json_volume(disks[0]));
            assert(json_volumes(disks.drop_first()) == json_volume(disks[1]));
            assert(disks.last() == disks[1]);
            assert(json_volumes(disks) =~= json_volume(disks[0]) + ","@ + json_volumes(
                disks.drop_first(),
            ));
        }
    } else {
        let dl = disks.drop_last();
        lemma_json_volumes_front(dl);
        assert(dl[0] == disks[0]);
        assert(disks.drop_first().drop_last() =~= dl.drop_first());
        assert(disks.drop_first().last() == disks.last());
        assert(json_volumes(disks.drop_first()) == json_volumes(dl.drop_first()) + ","@
            + json_volume(disks.last()));
        assert(json_volumes(disks) =~= json_volume(disks[0]) + ","@ + json_volumes(
            disks.drop_first(),
        ));
    }
}

/// A volume list never renders shorter than its count.
proof fn lemma_json_volumes_min_len(disks: Seq<DiskInfo>)
    ensures
        json_volumes(disks).len() >= disks.len(),
    decreases disks.len(),
{
    reveal_strlit("{\"name\":\"");
    if disks.len() <= 1 {
    } else {
        lemma_json_volumes_min_len(disks.drop_last());
    }
}

#[verifier::rlimit(100)]
proof fn lemma_parse_volumes_single(d0: DiskInfo, rest: Seq<char>, fuel: nat)
    requires
        fuel >= 1,
    ensures
        parse_volumes(json_volume(d0) + ("]"@ + rest), fuel) == Some(
            (seq![volume_tuple(d0)], rest),
        ),
{
    reveal_strlit("{\"name\":\"");
    reveal_strlit("]");
    let t = json_volume(d0) + ("]"@ + rest);
    assert(json_volume(d0)[0] == '{');
    assert(t[0] == '{' && t[0] != ']');
    lemma_parse_volume(d0, "]"@ + rest);
    let t2 = "]"@ + rest;
    assert(t2[0] == ']' && t2[0] != ',');
    assert(t2.skip(1) =~= rest);
}

#[verifier::rlimit(100)]
proof fn lemma_parse_volumes_cons(
    d0: DiskInfo,
    tail_doc: Seq<char>,
    vs: Seq<(Seq<char>, nat, nat, Seq<(Seq<char>, nat)>)>,
    rest: Seq<char>,
    fuel: nat,
)
    requires
        fuel >= 1,
        parse_volumes(tail_doc, (fuel - 1) as nat) == Some((vs, rest)),
    ensures
        parse_volumes(json_volume(d0) + (","@ + tail_doc), fuel) == Some(
            (seq![volume_tuple(d0)] + vs, rest),
        ),
{
    reveal_strlit("{\"name\":\"");
    reveal_strlit(",");
    let tail = ","@ + tail_doc;
    let t = json_volume(d0) + tail;
    assert(json_volume(d0)[0] == '{');
    assert(t[0] == '{' && t[0] != ']');
    lemma_parse_volume(d0, tail);
    assert(tail[0] == ',');
    assert(tail.skip(1) =~= tail_doc);
}

#[verifier::rlimit(100)]
#[verifier::spinoff_prover]
proof fn lemma_parse_volumes(disks: Seq<DiskInfo>, rest: Seq<char>, fuel: nat)
    requires
        fuel >= disks.len(),
    ensures
        parse_volumes(json_volumes(disks) + "]"@ + rest, fuel) == Some(
            (disks.map_values(|d: DiskInfo| volume_tuple(d)), rest),
        ),
    decreases disks.len(),
{
    reveal_strlit("]");
    let m = |d: DiskInfo| volume_tuple(d);
    let t = json_volumes(disks) + "]"@ + rest;
    if disks.len() == 0 {
        assert(t =~= "]"@ + rest);
        assert(t[0] == ']');
        assert(t.skip(1) =~= rest);
        assert(disks.map_values(m) =~= Seq::<(Seq<char>, nat, nat, Seq<(Seq<char>, nat)>)>::empty());
    } else {
        lemma_json_volumes_front(disks);
        let d0 = disks[0];
        if disks.len() == 1 {
            lemma_parse_volumes_single(d0, rest, fuel);
            assert(t =~= json_volume(d0) + ("]"@ + rest));
            assert(seq![m(d0)] =~= disks.map_values(m));
        } else {
            let tail_doc = json_volumes(disks.drop_first()) + "]"@ + rest;
            lemma_parse_volumes(disks.drop_first(), rest, (fuel - 1) as nat);
            lemma_parse_volumes_cons(
                d0,
                tail_doc,
                disks.drop_first().map_values(m),
                rest,
                fuel,
            );
            assert(t =~= json_volume(d0) + (","@ + tail_doc));
            assert(seq![m(d0)] + disks.drop_first().map_values(m) =~= disks.map_values(m));
        }
    }
}

/// Export round trip: reading an exported document back yields exactly
/// the report's tuples — every volume's name and capacities in bytes and
/// every file's path and size in bytes, in order, with nothing left over.
pub proof fn lemma_json_report_roundtrip(disks: Seq<DiskInfo>)
    ensures
        parse_report(json_report(disks)) == Some(
            disks.map_values(|d: DiskInfo| volume_tuple(d)),
        ),
{
    reveal_strlit("[");
    lemma_json_report_shape(disks);
    let t = json_report(disks);
    let t1 = json_volumes(disks) + "]"@ + Seq::<char>::empty();
    assert(t =~= "["@ + t1);
    lemma_expect("["@, t1);
    lemma_json_volumes_min_len(disks);
    assert(t1.len() >= disks.len());
    lemma_parse_volumes(disks, Seq::<char>::empty(), t1.len());
}

/// A rendered report always ends with the closing bracket.
proof fn lemma_json_report_closes(disks: Seq<DiskInfo>)
    ensures
        json_report(disks).len() > 0,
        json_report(disks).last() == ']',
    decreases disks.len(),
{
    reveal_strlit("[");
    reveal_strlit("]");
    reveal_strlit("[]");
    if disks.len() <= 1 {
    } else {
        lemma_json_report_closes(disks.drop_last());
    }
}

} // verus!
