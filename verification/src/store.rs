//! The snapshot store's record format: a human-readable key-value document
//! with exactly the seven snapshot fields as top-level string keys, one
//! `key = "value"` line per field in a fixed order.  Values are escaped so
//! that any snapshot round-trips: serializing and then parsing a record
//! yields the original snapshot field for field.
use vstd::prelude::*;

use crate::snapshot::NvidiaEnvironment;
use crate::snapshot::SnapshotView;
use crate::text::join_on;
use crate::text::lemma_join_on_split_on;
use crate::text::lemma_split_on_first_sep;
use crate::text::lemma_split_on_no_sep;
use crate::text::split_on;
use crate::text::split_str;
use crate::text::views_of;

verus! {

broadcast use vstd::string::group_string_axioms;

/// A persisted record that is absent a field, holds a malformed line, or
/// carries an invalid escape cannot be deserialized.
#[derive(Clone, Copy, Debug, PartialEq, Eq, Structural)]
pub struct DeserializationError;

/// The escaped form of one character inside a quoted value: backslash,
/// double quote, newline, carriage return and tab are written as two-character
/// escapes; every other character stands for itself.
pub open spec fn escape_char(c: char) -> Seq<char> {
    if c == '\\' {
        seq!['\\', '\\']
    } else if c == '"' {
        seq!['\\', '"']
    } else if c == '\n' {
        seq!['\\', 'n']
    } else if c == '\r' {
        seq!['\\', 'r']
    } else if c == '\t' {
        seq!['\\', 't']
    } else {
        seq![c]
    }
}

/// The escaped form of a whole value.
pub open spec fn escape(s: Seq<char>) -> Seq<char>
    decreases s.len(),
{
    if s.len() == 0 {
        Seq::<char>::empty()
    } else {
        escape_char(s[0]) + escape(s.skip(1))
    }
}

/// The character an escape pair `\x` stands for, if `x` is a valid escape.
pub open spec fn unescape_char(c: char) -> Option<char> {
    if c == '\\' {
        Option::Some('\\')
    } else if c == '"' {
        Option::Some('"')
    } else if c == 'n' {
        Option::Some('\n')
    } else if c == 'r' {
        Option::Some('\r')
    } else if c == 't' {
        Option::Some('\t')
    } else {
        Option::None
    }
}

/// The value an escaped body stands for: escape pairs are decoded, ordinary
/// characters stand for themselves, and a stray backslash, unknown escape,
/// or a raw quote, newline, carriage return or tab makes the body invalid.
pub open spec fn unescape(s: Seq<char>) -> Option<Seq<char>>
    decreases s.len(),
{
    if s.len() == 0 {
        Option::Some(Seq::<char>::empty())
    } else if s[0] == '\\' {
        if s.len() == 1 {
            Option::None
        } else {
            match (unescape_char(s[1]), unescape(s.skip(2))) {
                (Option::Some(c), Option::Some(rest)) => Option::Some(seq![c] + rest),
                _ => Option::None,
            }
        }
    } else if s[0] == '"' || s[0] == '\n' || s[0] == '\r' || s[0] == '\t' {
        Option::None
    } else {
        match unescape(s.skip(1)) {
            Option::Some(rest) => Option::Some(seq![s[0]] + rest),
            Option::None => Option::None,
        }
    }
}

/// Decoding inverts encoding: every value is recovered exactly from its
/// escaped form.
pub proof fn lemma_unescape_escape(s: Seq<char>)
    ensures
        unescape(escape(s)) == Option::Some(s),
    decreases s.len(),
{
    if s.len() == 0 {
        assert(escape(s).len() == 0);
    } else {
        lemma_unescape_escape(s.skip(1));
        let c = s[0];
        let e = escape(s);
        if c == '\\' || c == '"' || c == '\n' || c == '\r' || c == '\t' {
            assert(e[0] == '\\');
            assert(e.skip(2) =~= escape(s.skip(1)));
            assert(seq![c] + s.skip(1) =~= s);
        } else {
            assert(e[0] == c);
            assert(e.skip(1) =~= escape(s.skip(1)));
            assert(seq![c] + s.skip(1) =~= s);
        }
    }
}

/// Encoding inverts decoding: a body that decodes is exactly the escaped
/// form of its value, so escaped bodies are canonical.
pub proof fn lemma_escape_unescape(s: Seq<char>)
    requires
        unescape(s) is Some,
    ensures
        escape(unescape(s).unwrap()) == s,
    decreases s.len(),
{
    if s.len() == 0 {
        assert(escape(unescape(s).unwrap()) =~= s);
    } else if s[0] == '\\' {
        let c = unescape_char(s[1]).unwrap();
        let rest = unescape(s.skip(2)).unwrap();
        lemma_escape_unescape(s.skip(2));
        assert(unescape(s).unwrap() == seq![c] + rest);
        assert((seq![c] + rest)[0] == c);
        assert((seq![c] + rest).skip(1) =~= rest);
        assert(escape_char(c) =~= seq!['\\', s[1]]);
        assert(escape(seq![c] + rest) == escape_char(c) + escape(rest));
        assert(seq!['\\', s[1]] + s.skip(2) =~= s);
    } else {
        let rest = unescape(s.skip(1)).unwrap();
        lemma_escape_unescape(s.skip(1));
        assert(unescape(s).unwrap() == seq![s[0]] + rest);
        assert((seq![s[0]] + rest)[0] == s[0]);
        assert((seq![s[0]] + rest).skip(1) =~= rest);
        assert(escape_char(s[0]) =~= seq![s[0]]);
        assert(escape(seq![s[0]] + rest) == escape_char(s[0]) + escape(rest));
        assert(seq![s[0]] + s.skip(1) =~= s);
    }
}

/// Escaping one more character extends the escaped form at the end.
pub proof fn lemma_escape_push(s: Seq<char>, c: char)
    ensures
        escape(s.push(c)) == escape(s) + escape_char(c),
    decreases s.len(),
{
    if s.len() == 0 {
        assert(s.push(c)[0] == c);
        assert(s.push(c).skip(1) =~= Seq::<char>::empty());
        assert(escape(s.push(c)) == escape_char(c) + escape(Seq::<char>::empty()));
        assert(escape_char(c) + Seq::<char>::empty() =~= escape_char(c));
        assert(escape(s) =~= Seq::<char>::empty());
        assert(Seq::<char>::empty() + escape_char(c) =~= escape_char(c));
    } else {
        lemma_escape_push(s.skip(1), c);
        assert(s.push(c).skip(1) =~= s.skip(1).push(c));
        assert(escape_char(s[0]) + (escape(s.skip(1)) + escape_char(c)) =~= (escape_char(s[0])
            + escape(s.skip(1))) + escape_char(c));
    }
}

/// No newline survives escaping.
pub open spec fn nl_free(s: Seq<char>) -> bool {
    forall|k: int| 0 <= k < s.len() ==> s[k] != '\n'
}

pub proof fn lemma_escape_nl_free(s: Seq<char>)
    ensures
        nl_free(escape(s)),
    decreases s.len(),
{
    if s.len() == 0 {
    } else {
        lemma_escape_nl_free(s.skip(1));
        assert forall|k: int| 0 <= k < escape(s).len() implies escape(s)[k] != '\n' by {
            if k < escape_char(s[0]).len() {
                assert(escape(s)[k] == escape_char(s[0])[k]);
            } else {
                assert(escape(s)[k] == escape(s.skip(1))[k - escape_char(s[0]).len()]);
            }
        }
    }
}

/// The text between a key and its quoted value.
pub open spec fn mid_part() -> Seq<char> {
    " = \""@
}

/// One record line without its terminating newline.
pub open spec fn line_content(key: Seq<char>, val: Seq<char>) -> Seq<char> {
    key + mid_part() + escape(val) + seq!['"']
}

/// One full record line.
pub open spec fn record_line(key: Seq<char>, val: Seq<char>) -> Seq<char> {
    line_content(key, val) + seq!['\n']
}

/// The serialized record: the seven fields in a fixed order.
pub open spec fn spec_to_toml(v: SnapshotView) -> Seq<char> {
    record_line("checked_time"@, v.checked_time) + record_line("kernel"@, v.kernel) + record_line(
        "os"@,
        v.os,
    ) + record_line("nvidia_driver"@, v.nvidia_driver) + record_line("cuda"@, v.cuda)
        + record_line("cudnn"@, v.cudnn) + record_line("tensorrt"@, v.tensorrt)
}

/// The value of one record line, if the line is `key = "body"` with a valid
/// escaped body.
pub open spec fn parse_field(line: Seq<char>, key: Seq<char>) -> Option<Seq<char>> {
    let prefix = key + mid_part();
    if line.len() >= prefix.len() + 1 && line.take(prefix.len() as int) == prefix && line.last()
        == '"' {
        unescape(line.subrange(prefix.len() as int, line.len() - 1))
    } else {
        Option::None
    }
}

/// The snapshot a record stands for, if the record holds exactly the seven
/// expected lines in order, each well formed.
pub open spec fn spec_parse(s: Seq<char>) -> Option<SnapshotView> {
    let ls = split_on(s, '\n');
    if ls.len() == 8 && ls[7].len() == 0 {
        match (parse_field(ls[0], "checked_time"@), parse_field(ls[1], "kernel"@), parse_field(
            ls[2],
            "os"@,
        ), parse_field(ls[3], "nvidia_driver"@), parse_field(ls[4], "cuda"@), parse_field(
            ls[5],
            "cudnn"@,
        ), parse_field(ls[6], "tensorrt"@)) {
            (
                Option::Some(checked_time),
                Option::Some(kernel),
                Option::Some(os),
                Option::Some(nvidia_driver),
                Option::Some(cuda),
                Option::Some(cudnn),
                Option::Some(tensorrt),
            ) => Option::Some(
                SnapshotView { checked_time, kernel, os, nvidia_driver, cuda, cudnn, tensorrt },
            ),
            _ => Option::None,
        }
    } else {
        Option::None
    }
}

/// None of the record keys holds a newline.
proof fn lemma_keys_nl_free()
    ensures
        nl_free("checked_time"@),
        nl_free("kernel"@),
        nl_free("os"@),
        nl_free("nvidia_driver"@),
        nl_free("cuda"@),
        nl_free("cudnn"@),
        nl_free("tensorrt"@),
{
    reveal_strlit("checked_time");
    reveal_strlit("kernel");
    reveal_strlit("os");
    reveal_strlit("nvidia_driver");
    reveal_strlit("cuda");
    reveal_strlit("cudnn");
    reveal_strlit("tensorrt");
}

/// A record line for a newline-free key splits off as its line content.
proof fn lemma_split_record_line(key: Seq<char>, val: Seq<char>, rest: Seq<char>)
    requires
        nl_free(key),
    ensures
        split_on(record_line(key, val) + rest, '\n') == seq![line_content(key, val)] + split_on(
            rest,
            '\n',
        ),
{
    reveal_strlit(" = \"");
    lemma_escape_nl_free(val);
    let lc = line_content(key, val);
    let t = record_line(key, val) + rest;
    assert(t =~= lc + seq!['\n'] + rest);
    let j = lc.len() as int;
    assert(t[j] == '\n');
    assert forall|k: int| 0 <= k < j implies t[k] != '\n' by {
        assert(t[k] == lc[k]);
        if k < key.len() {
            assert(lc[k] == key[k]);
        } else if k < key.len() + 4 {
            let i = k - key.len();
            assert(lc[k] == mid_part()[i]);
            if i == 0 {
                assert(mid_part()[0] != '\n');
            } else if i == 1 {
                assert(mid_part()[1] != '\n');
            } else if i == 2 {
                assert(mid_part()[2] != '\n');
            } else {
                assert(mid_part()[3] != '\n');
            }
        } else if k < key.len() + 4 + escape(val).len() {
            assert(lc[k] == escape(val)[k - key.len() - 4]);
        } else {
            assert(lc[k] == '"');
        }
    }
    lemma_split_on_first_sep(t, '\n', j);
    assert(t.take(j) =~= lc);
    assert(t.skip(j + 1) =~= rest);
}

/// A well-formed line for a key parses back to its value.
proof fn lemma_parse_line_content(key: Seq<char>, val: Seq<char>)
    ensures
        parse_field(line_content(key, val), key) == Option::Some(val),
{
    reveal_strlit(" = \"");
    lemma_unescape_escape(val);
    let lc = line_content(key, val);
    let prefix = key + mid_part();
    assert(lc.len() == prefix.len() + escape(val).len() + 1);
    assert(lc.take(prefix.len() as int) =~= prefix);
    assert(lc.last() == '"');
    assert(lc.subrange(prefix.len() as int, lc.len() - 1) =~= escape(val));
}

/// Round trip: serializing any snapshot and parsing the record back yields
/// the same snapshot, field for field, empty fields included.
#[verifier::rlimit(100)]
pub proof fn lemma_round_trip(v: SnapshotView)
    ensures
        spec_parse(spec_to_toml(v)) == Option::Some(v),
{
    lemma_keys_nl_free();
    let l0 = record_line("checked_time"@, v.checked_time);
    let l1 = record_line("kernel"@, v.kernel);
    let l2 = record_line("os"@, v.os);
    let l3 = record_line("nvidia_driver"@, v.nvidia_driver);
    let l4 = record_line("cuda"@, v.cuda);
    let l5 = record_line("cudnn"@, v.cudnn);
    let l6 = record_line("tensorrt"@, v.tensorrt);
    let lc0 = line_content("checked_time"@, v.checked_time);
    let lc1 = line_content("kernel"@, v.kernel);
    let lc2 = line_content("os"@, v.os);
    let lc3 = line_content("nvidia_driver"@, v.nvidia_driver);
    let lc4 = line_content("cuda"@, v.cuda);
    let lc5 = line_content("cudnn"@, v.cudnn);
    let lc6 = line_content("tensorrt"@, v.tensorrt);
    let text = spec_to_toml(v);
    let r1 = l1 + l2 + l3 + l4 + l5 + l6;
    let r2 = l2 + l3 + l4 + l5 + l6;
    let r3 = l3 + l4 + l5 + l6;
    let r4 = l4 + l5 + l6;
    let r5 = l5 + l6;
    let r6 = l6;
    let empty = Seq::<char>::empty();
    assert(text =~= l0 + r1);
    lemma_split_record_line("checked_time"@, v.checked_time, r1);
    assert(r1 =~= l1 + r2);
    lemma_split_record_line("kernel"@, v.kernel, r2);
    assert(r2 =~= l2 + r3);
    lemma_split_record_line("os"@, v.os, r3);
    assert(r3 =~= l3 + r4);
    lemma_split_record_line("nvidia_driver"@, v.nvidia_driver, r4);
    assert(r4 =~= l4 + r5);
    lemma_split_record_line("cuda"@, v.cuda, r5);
    assert(r5 =~= l5 + r6);
    lemma_split_record_line("cudnn"@, v.cudnn, r6);
    assert(r6 =~= l6 + empty);
    lemma_split_record_line("tensorrt"@, v.tensorrt, empty);
    lemma_split_on_no_sep(empty, '\n');
    let ls = split_on(text, '\n');
    assert(ls =~= seq![lc0, lc1, lc2, lc3, lc4, lc5, lc6, empty]);
    lemma_parse_line_content("checked_time"@, v.checked_time);
    lemma_parse_line_content("kernel"@, v.kernel);
    lemma_parse_line_content("os"@, v.os);
    lemma_parse_line_content("nvidia_driver"@, v.nvidia_driver);
    lemma_parse_line_content("cuda"@, v.cuda);
    lemma_parse_line_content("cudnn"@, v.cudnn);
    lemma_parse_line_content("tensorrt"@, v.tensorrt);
}

/// A line that parses is exactly the well-formed line of its value: record
/// lines are canonical.
proof fn lemma_field_canonical(line: Seq<char>, key: Seq<char>, v: Seq<char>)
    requires
        parse_field(line, key) == Option::Some(v),
    ensures
        line == line_content(key, v),
{
    let prefix = key + mid_part();
    let body = line.subrange(prefix.len() as int, line.len() - 1);
    lemma_escape_unescape(body);
    assert(escape(v) == body);
    assert(line =~= line.take(prefix.len() as int) + body + seq![line.last()]);
    assert(line_content(key, v) =~= prefix + body + seq!['"']);
}

/// A record that parses is exactly the serialized form of the snapshot it
/// yields: the persisted record format is canonical, so serializing after
/// loading reproduces the record byte for byte.
#[verifier::rlimit(100)]
pub proof fn lemma_serialize_parse(s: Seq<char>)
    requires
        spec_parse(s) is Some,
    ensures
        spec_to_toml(spec_parse(s).unwrap()) == s,
{
    let v = spec_parse(s).unwrap();
    let ls = split_on(s, '\n');
    lemma_field_canonical(ls[0], "checked_time"@, v.checked_time);
    lemma_field_canonical(ls[1], "kernel"@, v.kernel);
    lemma_field_canonical(ls[2], "os"@, v.os);
    lemma_field_canonical(ls[3], "nvidia_driver"@, v.nvidia_driver);
    lemma_field_canonical(ls[4], "cuda"@, v.cuda);
    lemma_field_canonical(ls[5], "cudnn"@, v.cudnn);
    lemma_field_canonical(ls[6], "tensorrt"@, v.tensorrt);
    lemma_join_on_split_on(s, '\n');
    let t1 = ls.skip(1);
    let t2 = ls.skip(2);
    let t3 = ls.skip(3);
    let t4 = ls.skip(4);
    let t5 = ls.skip(5);
    let t6 = ls.skip(6);
    let t7 = ls.skip(7);
    assert(t1.skip(1) =~= t2);
    assert(t2.skip(1) =~= t3);
    assert(t3.skip(1) =~= t4);
    assert(t4.skip(1) =~= t5);
    assert(t5.skip(1) =~= t6);
    assert(t6.skip(1) =~= t7);
    assert(t7.len() == 1);
    assert(join_on(t7, '\n') == ls[7]);
    assert(ls[7] =~= Seq::<char>::empty());
    assert(join_on(t6, '\n') == ls[6] + seq!['\n'] + join_on(t7, '\n'));
    assert(join_on(t5, '\n') == ls[5] + seq!['\n'] + join_on(t6, '\n'));
    assert(join_on(t4, '\n') == ls[4] + seq!['\n'] + join_on(t5, '\n'));
    assert(join_on(t3, '\n') == ls[3] + seq!['\n'] + join_on(t4, '\n'));
    assert(join_on(t2, '\n') == ls[2] + seq!['\n'] + join_on(t3, '\n'));
    assert(join_on(t1, '\n') == ls[1] + seq!['\n'] + join_on(t2, '\n'));
    assert(join_on(ls, '\n') == ls[0] + seq!['\n'] + join_on(t1, '\n'));
    assert(spec_to_toml(v) =~= s);
}

/// Escapes a value for embedding in a quoted record line.
fn escape_string(s: &str) -> (r: String)
    ensures
        r@ == escape(s@),
{
    let n = s.unicode_len();
    let mut out = String::new();
    let mut i: usize = 0;
    proof {
        assert(s@.take(0).len() == 0);
        assert(out@ =~= escape(s@.take(0)));
    }
    while i < n
        invariant
            i <= n,
            n == s@.len(),
            out@ == escape(s@.take(i as int)),
        decreases n - i,
    {
        let ghost old_out = out@;
        let c = s.get_char(i);
        if c == '\\' {
            out.append("\\\\");
            proof {
                reveal_strlit("\\\\");
                assert("\\\\"@ =~= escape_char(s@[i as int]));
            }
        } else if c == '"' {
            out.append("\\\"");
            proof {
                reveal_strlit("\\\"");
                assert("\\\""@ =~= escape_char(s@[i as int]));
            }
        } else if c == '\n' {
            out.append("\\n");
            proof {
                reveal_strlit("\\n");
                assert("\\n"@ =~= escape_char(s@[i as int]));
            }
        } else if c == '\r' {
            out.append("\\r");
            proof {
                reveal_strlit("\\r");
                assert("\\r"@ =~= escape_char(s@[i as int]));
            }
        } else if c == '\t' {
            out.append("\\t");
            proof {
                reveal_strlit("\\t");
                assert("\\t"@ =~= escape_char(s@[i as int]));
            }
        } else {
            out.append(s.substring_char(i, i + 1));
            proof {
                assert(s@.subrange(i as int, i + 1) =~= escape_char(s@[i as int]));
            }
        }
        proof {
            lemma_escape_push(s@.take(i as int), s@[i as int]);
            assert(s@.take(i + 1) =~= s@.take(i as int).push(s@[i as int]));
            assert(out@ == old_out + escape_char(s@[i as int]));
        }
        i += 1;
    }
    proof {
        assert(s@.take(n as int) =~= s@);
    }
    out
}

/// Decodes an escaped body back into its value, or reports that the body is
/// not a valid escaped form.
fn unescape_string(s: &str) -> (r: Option<String>)
    ensures
        match r {
            Option::Some(v) => unescape(s@) == Option::Some(v@),
            Option::None => unescape(s@) is None,
        },
{
    let n = s.unicode_len();
    let mut out = String::new();
    let mut i: usize = 0;
    proof {
        assert(s@.skip(0) =~= s@);
    }
    while i < n
        invariant
            i <= n,
            n == s@.len(),
            unescape(s@) == (match unescape(s@.skip(i as int)) {
                Option::Some(rest) => Option::Some(out@ + rest),
                Option::None => Option::None::<Seq<char>>,
            }),
        decreases n - i,
    {
        let ghost old_out = out@;
        let ghost suffix = s@.skip(i as int);
        proof {
            assert(suffix[0] == s@[i as int]);
            assert(suffix.skip(1) =~= s@.skip(i + 1));
        }
        let c = s.get_char(i);
        if c == '\\' {
            if i + 1 == n {
                return Option::None;
            }
            proof {
                assert(suffix.skip(2) =~= s@.skip(i + 2));
            }
            let d = s.get_char(i + 1);
            if d == '\\' {
                out.append("\\");
                proof {
                    reveal_strlit("\\");
                    assert("\\"@ =~= seq!['\\']);
                }
            } else if d == '"' {
                out.append("\"");
                proof {
                    reveal_strlit("\"");
                    assert("\""@ =~= seq!['"']);
                }
            } else if d == 'n' {
                out.append("\n");
                proof {
                    reveal_strlit("\n");
                    assert("\n"@ =~= seq!['\n']);
                }
            } else if d == 'r' {
                out.append("\r");
                proof {
                    reveal_strlit("\r");
                    assert("\r"@ =~= seq!['\r']);
                }
            } else if d == 't' {
                out.append("\t");
                proof {
                    reveal_strlit("\t");
                    assert("\t"@ =~= seq!['\t']);
                }
            } else {
                return Option::None;
            }
            proof {
                assert(out@ =~= old_out + seq![unescape_char(s@[i + 1]).unwrap()]);
                assert forall|rest: Seq<char>| true implies old_out + (seq![unescape_char(
                    s@[i + 1],
                ).unwrap()] + rest) =~= out@ + rest by {}
            }
            i += 2;
        } else if c == '"' || c == '\n' || c == '\r' || c == '\t' {
            return Option::None;
        } else {
            out.append(s.substring_char(i, i + 1));
            proof {
                assert(s@.subrange(i as int, i + 1) =~= seq![s@[i as int]]);
                assert(out@ =~= old_out + seq![s@[i as int]]);
                assert forall|rest: Seq<char>| true implies old_out + (seq![s@[i as int]] + rest)
                    =~= out@ + rest by {}
            }
            i += 1;
        }
    }
    proof {
        assert(s@.skip(n as int) =~= Seq::<char>::empty());
        assert(out@ + Seq::<char>::empty() =~= out@);
    }
    Option::Some(out)
}

/// Appends one `key = "value"` line to the record being built.
fn append_record_line(out: &mut String, key: &str, val: &str)
    ensures
        final (out)@ == old(out)@ + record_line(key@, val@),
{
    out.append(key);
    out.append(" = \"");
    let esc = escape_string(val);
    out.append(esc.as_str());
    out.append("\"");
    out.append("\n");
    proof {
        reveal_strlit("\"");
        reveal_strlit("\n");
        assert("\""@ =~= seq!['"']);
        assert("\n"@ =~= seq!['\n']);
        assert(out@ =~= old(out)@ + record_line(key@, val@));
    }
}

/// Parses one record line against its expected key.
fn parse_field_line(line: &str, key: &str) -> (r: Option<String>)
    ensures
        match r {
            Option::Some(v) => parse_field(line@, key@) == Option::Some(v@),
            Option::None => parse_field(line@, key@) is None,
        },
{
    let n = line.unicode_len();
    let klen = key.unicode_len();
    proof {
        reveal_strlit(" = \"");
        assert(mid_part().len() == 4);
    }
    if n < klen || n - klen < 5 {
        return Option::None;
    }
    let ghost prefix = key@ + mid_part();
    let mut j: usize = 0;
    while j < klen
        invariant
            j <= klen,
            klen == key@.len(),
            n == line@.len(),
            n >= klen + 5,
            forall|k: int| 0 <= k < j ==> line@[k] == key@[k],
        decreases klen - j,
    {
        if line.get_char(j) != key.get_char(j) {
            proof {
                assert(line@.take((klen + 4) as int)[j as int] != (key@ + mid_part())[j as int]);
            }
            return Option::None;
        }
        j += 1;
    }
    proof {
        reveal_strlit(" = \"");
    }
    if line.get_char(klen) != ' ' {
        proof {
            assert(line@.take((klen + 4) as int)[klen as int] != (key@ + mid_part())[klen as int]);
        }
        return Option::None;
    }
    if line.get_char(klen + 1) != '=' {
        proof {
            assert(line@.take((klen + 4) as int)[klen + 1] != (key@ + mid_part())[klen + 1]);
        }
        return Option::None;
    }
    if line.get_char(klen + 2) != ' ' {
        proof {
            assert(line@.take((klen + 4) as int)[klen + 2] != (key@ + mid_part())[klen + 2]);
        }
        return Option::None;
    }
    if line.get_char(klen + 3) != '"' {
        proof {
            assert(line@.take((klen + 4) as int)[klen + 3] != (key@ + mid_part())[klen + 3]);
        }
        return Option::None;
    }
    if line.get_char(n - 1) != '"' {
        return Option::None;
    }
    proof {
        assert(line@.take((klen + 4) as int) =~= key@ + mid_part());
    }
    let body = line.substring_char(klen + 4, n - 1);
    let r = unescape_string(body);
    proof {
        assert(body@ == line@.subrange((klen + 4) as int, n - 1));
    }
    r
}

impl NvidiaEnvironment {
    /// Serializes this snapshot into the persisted record format, as
    /// `spec_to_toml` describes.
    pub fn to_toml(&self) -> (r: String)
        ensures
            r@ == spec_to_toml(self@),
    {
        let mut out = String::new();
        append_record_line(&mut out, "checked_time", self.checked_time.as_str());
        append_record_line(&mut out, "kernel", self.kernel.as_str());
        append_record_line(&mut out, "os", self.os.as_str());
        append_record_line(&mut out, "nvidia_driver", self.nvidia_driver.as_str());
        append_record_line(&mut out, "cuda", self.cuda.as_str());
        append_record_line(&mut out, "cudnn", self.cudnn.as_str());
        append_record_line(&mut out, "tensorrt", self.tensorrt.as_str());
        proof {
            assert(out@ =~= spec_to_toml(self@));
        }
        out
    }

    /// Parses a persisted record back into a snapshot, as `spec_parse`
    /// describes; a record that does not hold the seven expected lines in
    /// order, each well formed, is rejected.
    pub fn from_toml(s: &str) -> (r: Result<NvidiaEnvironment, DeserializationError>)
        ensures
            match r {
                Result::Ok(env) => spec_parse(s@) == Option::Some(env@),
                Result::Err(_) => spec_parse(s@) is None,
            },
    {
        let lines = split_str(s, '\n');
        let ghost ls = split_on(s@, '\n');
        if lines.len() != 8 {
            return Result::Err(DeserializationError);
        }
        if lines[7].as_str().unicode_len() != 0 {
            return Result::Err(DeserializationError);
        }
        let checked_time = match parse_field_line(lines[0].as_str(), "checked_time") {
            Option::Some(v) => v,
            Option::None => {
                return Result::Err(DeserializationError);
            },
        };
        let kernel = match parse_field_line(lines[1].as_str(), "kernel") {
            Option::Some(v) => v,
            Option::None => {
                return Result::Err(DeserializationError);
            },
        };
        let os = match parse_field_line(lines[2].as_str(), "os") {
            Option::Some(v) => v,
            Option::None => {
                return Result::Err(DeserializationError);
            },
        };
        let nvidia_driver = match parse_field_line(lines[3].as_str(), "nvidia_driver") {
            Option::Some(v) => v,
            Option::None => {
                return Result::Err(DeserializationError);
            },
        };
        let cuda = match parse_field_line(lines[4].as_str(), "cuda") {
            Option::Some(v) => v,
            Option::None => {
                return Result::Err(DeserializationError);
            },
        };
        let cudnn = match parse_field_line(lines[5].as_str(), "cudnn") {
            Option::Some(v) => v,
            Option::None => {
                return Result::Err(DeserializationError);
            },
        };
        let tensorrt = match parse_field_line(lines[6].as_str(), "tensorrt") {
            Option::Some(v) => v,
            Option::None => {
                return Result::Err(DeserializationError);
            },
        };
        Result::Ok(NvidiaEnvironment { checked_time, kernel, os, nvidia_driver, cuda, cudnn, tensorrt })
    }
}

} // verus!
